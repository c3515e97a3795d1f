//! The pattern canonicalizer: turns a word into a structural fingerprint that
//! records which letter positions must be equal and which must differ,
//! independent of the actual letters.

use vstd::prelude::*;
use vstd::seq_lib::seq_to_set_is_finite;
use vstd::set::axiom_set_insert_len;
use vstd::set_lib::lemma_len_subset;

verus! {

/// True when byte `b` occurs somewhere in `w`.
pub open spec fn has_byte(w: Seq<u8>, b: u8) -> bool {
    exists|j: int| 0 <= j < w.len() && w[j] == b
}

/// Index of the first occurrence of `b` in `w` at or after position `k`;
/// `w.len()` when `b` does not occur there.
pub open spec fn first_from(w: Seq<u8>, b: u8, k: int) -> int
    decreases w.len() - k,
{
    if k < 0 || k >= w.len() {
        w.len() as int
    } else if w[k] == b {
        k
    } else {
        first_from(w, b, k + 1)
    }
}

/// Index of the first occurrence of `b` in `w`.
pub open spec fn first_index(w: Seq<u8>, b: u8) -> int {
    first_from(w, b, 0)
}

/// Number of distinct byte values occurring in `w`.
pub open spec fn distinct_count(w: Seq<u8>) -> nat {
    w.to_set().len()
}

/// The canonical pattern of a word: position `i` carries the identifier of
/// byte `w[i]`, and the identifier of a byte is the number of distinct bytes
/// occurring strictly before its first occurrence. Identifiers are therefore
/// handed out in first-occurrence order, starting from zero.
pub open spec fn pattern_of(w: Seq<u8>) -> Seq<int> {
    Seq::new(w.len(), |i: int| distinct_count(w.take(first_index(w, w[i]))) as int)
}

/// `first_from` finds the least occurrence at or after `k`, if any.
pub proof fn lemma_first_from(w: Seq<u8>, b: u8, k: int)
    requires
        0 <= k <= w.len(),
    ensures
        k <= first_from(w, b, k) <= w.len(),
        first_from(w, b, k) < w.len() ==> w[first_from(w, b, k)] == b,
        forall|j: int| k <= j < first_from(w, b, k) ==> w[j] != b,
        (exists|j: int| k <= j < w.len() && w[j] == b) ==> first_from(w, b, k) < w.len(),
    decreases w.len() - k,
{
    if k < w.len() && w[k] != b {
        lemma_first_from(w, b, k + 1);
    }
}

/// The first occurrence of `w[i]` is at or before `i`, and it is an
/// occurrence of the same byte.
pub proof fn lemma_first_index_at(w: Seq<u8>, i: int)
    requires
        0 <= i < w.len(),
    ensures
        0 <= first_index(w, w[i]) <= i,
        w[first_index(w, w[i])] == w[i],
{
    lemma_first_from(w, w[i], 0);
    assert(first_from(w, w[i], 0) < w.len());
}

/// Extending a prefix by one byte either keeps or increments its distinct
/// count, according to whether the byte was already present.
pub proof fn lemma_distinct_step(w: Seq<u8>, k: int)
    requires
        0 <= k < w.len(),
    ensures
        has_byte(w.take(k), w[k]) ==> distinct_count(w.take(k + 1)) == distinct_count(w.take(k)),
        !has_byte(w.take(k), w[k]) ==> distinct_count(w.take(k + 1)) == distinct_count(w.take(k))
            + 1,
{
    let pre = w.take(k);
    assert(w.take(k + 1) =~= pre + seq![w[k]]);
    Seq::<u8>::lemma_to_set_insert_commutes(pre, w[k]);
    seq_to_set_is_finite(pre);
    axiom_set_insert_len(pre.to_set(), w[k]);
    assert(pre.to_set().contains(w[k]) == has_byte(pre, w[k]));
}

/// A prefix of length `k` holds at most `k` distinct bytes.
pub proof fn lemma_distinct_bound(w: Seq<u8>, k: int)
    requires
        0 <= k <= w.len(),
    ensures
        distinct_count(w.take(k)) <= k,
    decreases k,
{
    if k == 0 {
        assert(w.take(0) =~= Seq::<u8>::empty());
        assert(w.take(0).to_set() =~= Set::<u8>::empty());
    } else {
        lemma_distinct_bound(w, k - 1);
        lemma_distinct_step(w, k - 1);
    }
}

/// Distinct counts grow with the prefix.
pub proof fn lemma_distinct_mono(w: Seq<u8>, k1: int, k2: int)
    requires
        0 <= k1 <= k2 <= w.len(),
    ensures
        w.take(k1).to_set().subset_of(w.take(k2).to_set()),
        distinct_count(w.take(k1)) <= distinct_count(w.take(k2)),
{
    assert forall|b: u8| w.take(k1).to_set().contains(b) implies w.take(
        k2,
    ).to_set().contains(b) by {
        let j = choose|j: int| 0 <= j < k1 && w.take(k1)[j] == b;
        assert(w.take(k2)[j] == b);
    }
    seq_to_set_is_finite(w.take(k2));
    lemma_len_subset(w.take(k1).to_set(), w.take(k2).to_set());
}

/// Bytes whose first occurrences are ordered get strictly ordered
/// identifiers.
proof fn lemma_id_ordered(w: Seq<u8>, i: int, j: int)
    requires
        0 <= i < w.len(),
        0 <= j < w.len(),
        first_index(w, w[i]) < first_index(w, w[j]),
    ensures
        pattern_of(w)[i] < pattern_of(w)[j],
{
    let fi = first_index(w, w[i]);
    let fj = first_index(w, w[j]);
    lemma_first_from(w, w[i], 0);
    lemma_first_from(w, w[j], 0);
    lemma_first_index_at(w, i);
    lemma_first_index_at(w, j);
    // w[i] occurs at fi < fj but nowhere before fi, so the prefix of length
    // fj has strictly more distinct bytes than the prefix of length fi.
    lemma_distinct_mono(w, fi, fj);
    assert(!w.take(fi).to_set().contains(w[i]));
    assert(w.take(fj).to_set().contains(w[i])) by {
        assert(w.take(fj)[fi] == w[i]);
    }
    seq_to_set_is_finite(w.take(fj));
    axiom_set_insert_len(w.take(fi).to_set(), w[i]);
    assert(w.take(fi).to_set().insert(w[i]).subset_of(w.take(fj).to_set())) by {
        assert forall|b: u8|
            w.take(fi).to_set().insert(w[i]).contains(b) implies w.take(
            fj,
        ).to_set().contains(b) by {
            if b == w[i] {
                assert(w.take(fj)[fi] == w[i]);
            } else {
                let x = choose|x: int| 0 <= x < fi && w.take(fi)[x] == b;
                assert(w.take(fj)[x] == b);
            }
        }
    }
    lemma_len_subset(w.take(fi).to_set().insert(w[i]), w.take(fj).to_set());
}

/// Two positions carry the same pattern identifier exactly when they carry
/// the same byte: the pattern captures the equal-letter structure of a word.
pub proof fn lemma_pattern_structure(w: Seq<u8>)
    ensures
        pattern_of(w).len() == w.len(),
        forall|i: int, j: int|
            0 <= i < w.len() && 0 <= j < w.len() ==> ((pattern_of(w)[i] == pattern_of(w)[j])
                <==> (w[i] == w[j])),
{
    assert forall|i: int, j: int|
        0 <= i < w.len() && 0 <= j < w.len() implies ((pattern_of(w)[i] == pattern_of(w)[j])
        <==> (w[i] == w[j])) by {
        if w[i] == w[j] {
            assert(pattern_of(w)[i] == pattern_of(w)[j]);
        } else {
            let fi = first_index(w, w[i]);
            let fj = first_index(w, w[j]);
            lemma_first_index_at(w, i);
            lemma_first_index_at(w, j);
            assert(fi != fj);
            if fi < fj {
                lemma_id_ordered(w, i, j);
            } else {
                lemma_id_ordered(w, j, i);
            }
        }
    }
}

/// Words with the same equality structure at every pair of positions have
/// exactly the same canonical pattern: the pattern is determined by which
/// positions coincide, not by the letters themselves.
pub proof fn lemma_pattern_equiv(w: Seq<u8>, v: Seq<u8>)
    requires
        w.len() == v.len(),
        forall|i: int, j: int|
            0 <= i < w.len() && 0 <= j < w.len() ==> ((w[i] == w[j]) <==> (v[i] == v[j])),
    ensures
        pattern_of(w) == pattern_of(v),
{
    assert forall|i: int| 0 <= i < w.len() implies pattern_of(w)[i] == pattern_of(v)[i] by {
        lemma_first_equiv(w, v, i, 0);
        let f = first_index(w, w[i]);
        lemma_first_from(w, w[i], 0);
        lemma_distinct_equiv(w, v, f);
    }
    assert(pattern_of(w) =~= pattern_of(v));
}

/// Under the same equality structure, first occurrences coincide.
proof fn lemma_first_equiv(w: Seq<u8>, v: Seq<u8>, i: int, k: int)
    requires
        w.len() == v.len(),
        forall|a: int, b: int|
            0 <= a < w.len() && 0 <= b < w.len() ==> ((w[a] == w[b]) <==> (v[a] == v[b])),
        0 <= i < w.len(),
        0 <= k <= w.len(),
    ensures
        first_from(w, w[i], k) == first_from(v, v[i], k),
    decreases w.len() - k,
{
    if k < w.len() {
        assert((w[k] == w[i]) <==> (v[k] == v[i]));
        if w[k] != w[i] {
            lemma_first_equiv(w, v, i, k + 1);
        }
    }
}

/// Under the same equality structure, prefixes have equal distinct counts.
proof fn lemma_distinct_equiv(w: Seq<u8>, v: Seq<u8>, k: int)
    requires
        w.len() == v.len(),
        forall|a: int, b: int|
            0 <= a < w.len() && 0 <= b < w.len() ==> ((w[a] == w[b]) <==> (v[a] == v[b])),
        0 <= k <= w.len(),
    ensures
        distinct_count(w.take(k)) == distinct_count(v.take(k)),
    decreases k,
{
    if k == 0 {
        assert(w.take(0) =~= Seq::<u8>::empty());
        assert(v.take(0) =~= Seq::<u8>::empty());
    } else {
        lemma_distinct_equiv(w, v, k - 1);
        lemma_distinct_step(w, k - 1);
        lemma_distinct_step(v, k - 1);
        assert(has_byte(w.take(k - 1), w[k - 1]) <==> has_byte(v.take(k - 1), v[k - 1])) by {
            if has_byte(w.take(k - 1), w[k - 1]) {
                let j = choose|j: int|
                    0 <= j < k - 1 && #[trigger] w.take(k - 1)[j] == w[k - 1];
                assert(v.take(k - 1)[j] == v[k - 1]);
            }
            if has_byte(v.take(k - 1), v[k - 1]) {
                let j = choose|j: int|
                    0 <= j < k - 1 && #[trigger] v.take(k - 1)[j] == v[k - 1];
                assert(w.take(k - 1)[j] == w[k - 1]);
            }
        }
    }
}

/// The structural fingerprint of a word. Two words share a `Pattern` exactly
/// when their equal-letter structure matches at every position.
pub struct Pattern {
    ids: Vec<usize>,
}

impl View for Pattern {
    type V = Seq<int>;

    closed spec fn view(&self) -> Seq<int> {
        self.ids@.map_values(|u: usize| u as int)
    }
}

impl Pattern {
    /// Canonicalize a word: scan left to right, assigning each byte value the
    /// next unused identifier on its first occurrence.
    pub fn of_bytes(w: &Vec<u8>) -> (p: Pattern)
        ensures
            p@ == pattern_of(w@),
    {
        let n = w.len();
        let mut ids: Vec<usize> = Vec::new();
        let mut next: usize = 0;
        let mut i: usize = 0;
        proof {
            assert(w@.take(0) =~= Seq::<u8>::empty());
            assert(w@.take(0).to_set() =~= Set::<u8>::empty());
        }
        while i < n
            invariant
                n == w@.len(),
                i <= n,
                ids@.len() == i,
                forall|k: int| 0 <= k < i ==> ids@[k] as int == pattern_of(w@)[k],
                next as int == distinct_count(w@.take(i as int)),
            decreases n - i,
        {
            let b = w[i];
            let mut j: usize = 0;
            while j < i && w[j] != b
                invariant
                    i < n == w@.len(),
                    j <= i,
                    forall|k: int| 0 <= k < j ==> w@[k] != b,
                decreases i - j,
            {
                j += 1;
            }
            if j < i {
                // An earlier occurrence of the byte exists: reuse its id.
                let id = ids[j];
                proof {
                    lemma_first_index_at(w@, i as int);
                    lemma_first_index_at(w@, j as int);
                    assert(pattern_of(w@)[i as int] == pattern_of(w@)[j as int]);
                    lemma_distinct_step(w@, i as int);
                    assert(has_byte(w@.take(i as int), b)) by {
                        assert(w@.take(i as int)[j as int] == b);
                    }
                }
                ids.push(id);
            } else {
                // First occurrence: hand out the next identifier.
                proof {
                    lemma_first_from(w@, b, 0);
                    assert forall|k: int| 0 <= k < i implies w@[k] != b by {}
                    assert(first_index(w@, b) == i as int) by {
                        let f = first_index(w@, b);
                        assert(f < w@.len());
                        if f < i as int {
                            assert(w@[f] == b);
                            assert(false);
                        }
                        if f > i as int {
                            assert(w@[i as int] == b);
                            assert(false);
                        }
                    }
                    assert(pattern_of(w@)[i as int] == distinct_count(w@.take(i as int)) as int);
                    lemma_distinct_bound(w@, i as int);
                    lemma_distinct_step(w@, i as int);
                    assert(!has_byte(w@.take(i as int), b)) by {
                        if has_byte(w@.take(i as int), b) {
                            let k = choose|k: int| 0 <= k < i && w@.take(i as int)[k] == b;
                            assert(w@[k] == b);
                            assert(false);
                        }
                    }
                }
                ids.push(next);
                next += 1;
            }
            i += 1;
        }
        let p = Pattern { ids };
        proof {
            assert(p@ =~= pattern_of(w@));
        }
        p
    }

    /// Structural equality of two fingerprints.
    pub fn same_as(&self, other: &Pattern) -> (r: bool)
        ensures
            r <==> (self@ == other@),
    {
        if self.ids.len() != other.ids.len() {
            proof {
                assert(self@.len() != other@.len());
            }
            return false;
        }
        let n = self.ids.len();
        let mut i: usize = 0;
        while i < n
            invariant
                n == self.ids@.len() == other.ids@.len(),
                i <= n,
                forall|k: int| 0 <= k < i ==> self.ids@[k] == other.ids@[k],
            decreases n - i,
        {
            if self.ids[i] != other.ids[i] {
                proof {
                    assert(self@[i as int] != other@[i as int]);
                }
                return false;
            }
            i += 1;
        }
        proof {
            assert(self@ =~= other@);
        }
        true
    }

    /// The identifier sequence itself, one entry per byte of the word.
    pub fn ids(&self) -> (r: &Vec<usize>)
        ensures
            r@.len() == self@.len(),
            forall|k: int| 0 <= k < r@.len() ==> r@[k] as int == self@[k],
    {
        &self.ids
    }
}

} // verus!
