//! The solver: a dictionary index built once from the word list, a candidate
//! matcher and mapping extender used inside a backtracking search, and a
//! renderer that applies a completed mapping to the whole phrase.

use crate::mapping::injective;
use crate::mapping::keys_distinct;
use crate::mapping::lookup;
use crate::mapping::map_of;
use crate::mapping::vals_distinct;
use crate::mapping::Mapping;
use crate::pattern::first_index;
use crate::pattern::has_byte;
use crate::pattern::lemma_first_from;
use crate::pattern::lemma_first_index_at;
use crate::pattern::lemma_pattern_equiv;
use crate::pattern::lemma_pattern_structure;
use crate::pattern::pattern_of;
use crate::pattern::Pattern;
use crate::phrase::lower_ascii;
use crate::phrase::tokens_of;
use crate::phrase::Phrase;
use vstd::prelude::*;

verus! {

/// Some element of `ws` views to `w`.
pub open spec fn word_in(ws: Seq<Vec<u8>>, w: Seq<u8>) -> bool {
    exists|k: int| 0 <= k < ws.len() && (#[trigger] ws[k])@ == w
}

/// `w` is one of the dictionary's words.
pub open spec fn dict_contains(d: Seq<Seq<u8>>, w: Seq<u8>) -> bool {
    exists|k: int| 0 <= k < d.len() && #[trigger] d[k] == w
}

/// No two elements of `ws` view to the same word.
pub open spec fn words_distinct(ws: Seq<Vec<u8>>) -> bool {
    forall|a: int, b: int| 0 <= a < b < ws.len() ==> (#[trigger] ws[a])@ != (#[trigger] ws[b])@
}

/// Pushing a word extends the dictionary by exactly that word.
proof fn lemma_dict_push(d: Seq<Seq<u8>>, w: Seq<u8>, x: Seq<u8>)
    ensures
        dict_contains(d.push(w), x) <==> (dict_contains(d, x) || x == w),
{
    if dict_contains(d.push(w), x) {
        let k = choose|k: int| 0 <= k < d.push(w).len() && #[trigger] d.push(w)[k] == x;
        if k < d.len() {
            assert(d[k] == x);
        }
    }
    if dict_contains(d, x) {
        let k = choose|k: int| 0 <= k < d.len() && #[trigger] d[k] == x;
        assert(d.push(w)[k] == x);
    }
    if x == w {
        assert(d.push(w)[d.len() as int] == x);
    }
}

/// Pushing an element extends the member set by exactly its word.
proof fn lemma_word_in_push(ws: Seq<Vec<u8>>, v: Vec<u8>, x: Seq<u8>)
    ensures
        word_in(ws.push(v), x) <==> (word_in(ws, x) || v@ == x),
{
    if word_in(ws.push(v), x) {
        let k = choose|k: int| 0 <= k < ws.push(v).len() && (#[trigger] ws.push(v)[k])@ == x;
        if k < ws.len() {
            assert(ws[k]@ == x);
        }
    }
    if word_in(ws, x) {
        let k = choose|k: int| 0 <= k < ws.len() && (#[trigger] ws[k])@ == x;
        assert(ws.push(v)[k]@ == x);
    }
    if v@ == x {
        assert(ws.push(v)[ws.len() as int]@ == x);
    }
}

/// Some bucket carries key (`idx`, `b`).
pub open spec fn has_position_bucket(bs: Seq<(usize, u8, Vec<Vec<u8>>)>, idx: int, b: u8) -> bool {
    exists|i: int| 0 <= i < bs.len() && (#[trigger] bs[i]).0 as int == idx && bs[i].1 == b
}

/// The pattern index is sound and complete for dictionary `d`: bucket keys
/// are distinct patterns, and a word sits in a bucket exactly when it is a
/// dictionary word with that pattern.
pub open spec fn pattern_buckets_ok(bs: Seq<(Pattern, Vec<Vec<u8>>)>, d: Seq<Seq<u8>>) -> bool {
    &&& forall|a: int, b: int|
        0 <= a < b < bs.len() ==> (#[trigger] bs[a]).0@ != (#[trigger] bs[b]).0@
    &&& forall|i: int| 0 <= i < bs.len() ==> words_distinct((#[trigger] bs[i]).1@)
    &&& forall|i: int, x: Seq<u8>|
        0 <= i < bs.len() ==> (#[trigger] word_in(bs[i].1@, x) <==> (dict_contains(d, x)
            && pattern_of(x) == bs[i].0@))
    &&& forall|x: Seq<u8>| #[trigger]
        dict_contains(d, x) ==> exists|i: int|
            0 <= i < bs.len() && (#[trigger] bs[i]).0@ == pattern_of(x)
}

/// The position index is sound and complete for dictionary `d`: bucket keys
/// are distinct (position, byte) pairs, and a word sits in a bucket exactly
/// when it is a dictionary word carrying that byte at that position.
pub open spec fn position_buckets_ok(bs: Seq<(usize, u8, Vec<Vec<u8>>)>, d: Seq<Seq<u8>>) -> bool {
    &&& forall|a: int, b: int|
        0 <= a < b < bs.len() ==> !((#[trigger] bs[a]).0 == (#[trigger] bs[b]).0 && bs[a].1
            == bs[b].1)
    &&& forall|i: int| 0 <= i < bs.len() ==> words_distinct((#[trigger] bs[i]).2@)
    &&& forall|i: int, x: Seq<u8>|
        0 <= i < bs.len() ==> (#[trigger] word_in(bs[i].2@, x) <==> (dict_contains(d, x)
            && bs[i].0 < x.len() && x[bs[i].0 as int] == bs[i].1))
    &&& forall|x: Seq<u8>, idx: int|
        #![trigger dict_contains(d, x), x[idx]]
        dict_contains(d, x) && 0 <= idx < x.len() ==> has_position_bucket(bs, idx, x[idx])
}

/// Equality of two words.
fn words_equal(a: &Vec<u8>, b: &Vec<u8>) -> (r: bool)
    ensures
        r <==> a@ == b@,
{
    if a.len() != b.len() {
        return false;
    }
    let n = a.len();
    let mut i: usize = 0;
    while i < n
        invariant
            n == a@.len() == b@.len(),
            i <= n,
            forall|k: int| 0 <= k < i ==> a@[k] == b@[k],
        decreases n - i,
    {
        if a[i] != b[i] {
            return false;
        }
        i += 1;
    }
    proof {
        assert(a@ =~= b@);
    }
    true
}

/// Membership of a word in a list of words.
fn word_in_vec(ws: &Vec<Vec<u8>>, w: &Vec<u8>) -> (r: bool)
    ensures
        r <==> word_in(ws@, w@),
{
    let n = ws.len();
    let mut i: usize = 0;
    while i < n
        invariant
            n == ws@.len(),
            i <= n,
            forall|k: int| 0 <= k < i ==> (#[trigger] ws@[k])@ != w@,
        decreases n - i,
    {
        if words_equal(&ws[i], w) {
            proof {
                assert((ws@[i as int])@ == w@);
            }
            return true;
        }
        i += 1;
    }
    false
}

/// A fresh copy of a word.
fn copy_word(w: &Vec<u8>) -> (r: Vec<u8>)
    ensures
        r@ == w@,
{
    let n = w.len();
    let mut r: Vec<u8> = Vec::new();
    let mut i: usize = 0;
    while i < n
        invariant
            n == w@.len(),
            i <= n,
            r@ == w@.take(i as int),
        decreases n - i,
    {
        r.push(w[i]);
        proof {
            assert(r@ =~= w@.take(i as int + 1));
        }
        i += 1;
    }
    proof {
        assert(r@ =~= w@);
    }
    r
}

/// A fresh copy of a list of words.
fn copy_words(ws: &Vec<Vec<u8>>) -> (r: Vec<Vec<u8>>)
    ensures
        r@.len() == ws@.len(),
        forall|k: int| 0 <= k < ws@.len() ==> (#[trigger] r@[k])@ == (#[trigger] ws@[k])@,
{
    let n = ws.len();
    let mut r: Vec<Vec<u8>> = Vec::new();
    let mut i: usize = 0;
    while i < n
        invariant
            n == ws@.len(),
            i <= n,
            r@.len() == i,
            forall|k: int| 0 <= k < i ==> (#[trigger] r@[k])@ == (#[trigger] ws@[k])@,
        decreases n - i,
    {
        r.push(copy_word(&ws[i]));
        i += 1;
    }
    r
}

/// Find the bucket holding a pattern, if one exists.
fn find_pattern_bucket(bs: &Vec<(Pattern, Vec<Vec<u8>>)>, p: &Pattern) -> (r: Option<usize>)
    ensures
        match r {
            Some(i) => i < bs@.len() && bs@[i as int].0@ == p@,
            None => forall|k: int| 0 <= k < bs@.len() ==> (#[trigger] bs@[k]).0@ != p@,
        },
{
    let n = bs.len();
    let mut i: usize = 0;
    while i < n
        invariant
            n == bs@.len(),
            i <= n,
            forall|k: int| 0 <= k < i ==> (#[trigger] bs@[k]).0@ != p@,
        decreases n - i,
    {
        if bs[i].0.same_as(p) {
            return Some(i);
        }
        i += 1;
    }
    None
}

/// Find the bucket holding a (position, byte) key, if one exists.
fn find_position_bucket(bs: &Vec<(usize, u8, Vec<Vec<u8>>)>, idx: usize, u: u8) -> (r: Option<
    usize,
>)
    ensures
        match r {
            Some(i) => i < bs@.len() && bs@[i as int].0 == idx && bs@[i as int].1 == u,
            None => forall|k: int|
                0 <= k < bs@.len() ==> !((#[trigger] bs@[k]).0 == idx && bs@[k].1 == u),
        },
{
    let n = bs.len();
    let mut i: usize = 0;
    while i < n
        invariant
            n == bs@.len(),
            i <= n,
            forall|k: int| 0 <= k < i ==> !((#[trigger] bs@[k]).0 == idx && bs@[k].1 == u),
        decreases n - i,
    {
        if bs[i].0 == idx && bs[i].1 == u {
            return Some(i);
        }
        i += 1;
    }
    None
}

/// Record word `w` in the pattern index.
fn insert_pattern_entry(bs: &mut Vec<(Pattern, Vec<Vec<u8>>)>, w: &Vec<u8>, Ghost(d): Ghost<
    Seq<Seq<u8>>,
>)
    requires
        pattern_buckets_ok(old(bs)@, d),
    ensures
        pattern_buckets_ok(final(bs)@, d.push(w@)),
{
    let ghost d1 = d.push(w@);
    proof {
        assert forall|x: Seq<u8>| true implies (dict_contains(d1, x) <==> (dict_contains(d, x) || x
            == w@)) by {
            lemma_dict_push(d, w@, x);
        }
    }
    let p = Pattern::of_bytes(w);
    match find_pattern_bucket(bs, &p) {
        Some(bi) => {
            let ghost bs0 = bs@;
            if word_in_vec(&bs[bi].1, w) {
                // The word is already recorded under its pattern.
                proof {
                    assert(word_in(bs0[bi as int].1@, w@));
                    assert(dict_contains(d, w@));
                    assert(pattern_buckets_ok(bs@, d1)) by {
                        assert forall|i: int, x: Seq<u8>| 0 <= i < bs0.len() implies (
                        #[trigger] word_in(bs0[i].1@, x) <==> (dict_contains(d1, x) && pattern_of(x)
                            == bs0[i].0@)) by {
                            assert(word_in(bs0[i].1@, x) <==> (dict_contains(d, x) && pattern_of(x)
                                == bs0[i].0@));
                            if x == w@ && pattern_of(x) == bs0[i].0@ {
                                assert(dict_contains(d, x));
                            }
                        }
                        assert forall|x: Seq<u8>| #[trigger]
                            dict_contains(d1, x) implies exists|i: int|
                            0 <= i < bs0.len() && (#[trigger] bs0[i]).0@ == pattern_of(x) by {
                            if x == w@ {
                                assert(dict_contains(d, w@));
                            }
                        }
                    }
                }
            } else {
                let mut pair = bs.remove(bi);
                pair.1.push(copy_word(w));
                bs.push(pair);
                proof {
                    let bs1 = bs@;
                    let last = bs1.len() - 1;
                    assert(bs1 =~= bs0.remove(bi as int).push(bs1[last]));
                    assert(bs1[last].0@ == pattern_of(w@));
                    assert(bs1[last].1@ =~= bs0[bi as int].1@.push(bs1[last].1@.last()));
                    let wc = bs1[last].1@.last();
                    assert(wc@ == w@);
                    // Where each old bucket went: index k below bi stays at k,
                    // above bi moves down by one; the touched bucket is last.
                    assert forall|k: int| 0 <= k < last implies bs1[k] == (if k < bi as int {
                        bs0[k]
                    } else {
                        bs0[k + 1]
                    }) by {}
                    // Keys stay distinct.
                    assert forall|a: int, b: int| 0 <= a < b < bs1.len() implies (
                    #[trigger] bs1[a]).0@ != (#[trigger] bs1[b]).0@ by {
                        let oa = if a < bi as int {
                            a
                        } else {
                            a + 1
                        };
                        if b == last {
                            assert(bs1[a] == bs0[oa]);
                            assert(bs1[b].0@ == bs0[bi as int].0@);
                            assert(oa != bi as int);
                        } else {
                            let ob = if b < bi as int {
                                b
                            } else {
                                b + 1
                            };
                            assert(bs1[a] == bs0[oa]);
                            assert(bs1[b] == bs0[ob]);
                        }
                    }
                    // Buckets keep distinct words.
                    assert forall|i: int| 0 <= i < bs1.len() implies words_distinct(
                        (#[trigger] bs1[i]).1@,
                    ) by {
                        if i == last {
                            let olds = bs0[bi as int].1@;
                            assert(words_distinct(olds));
                            assert(!word_in(olds, w@));
                            assert forall|a: int, b: int|
                                0 <= a < b < bs1[i].1@.len() implies (#[trigger] bs1[i].1@[a])@ != (
                            #[trigger] bs1[i].1@[b])@ by {
                                if b == bs1[i].1@.len() - 1 {
                                    assert(bs1[i].1@[a] == olds[a]);
                                    if olds[a]@ == w@ {
                                        assert(word_in(olds, w@));
                                    }
                                } else {
                                    assert(bs1[i].1@[a] == olds[a]);
                                    assert(bs1[i].1@[b] == olds[b]);
                                }
                            }
                        } else {
                            let oi = if i < bi as int {
                                i
                            } else {
                                i + 1
                            };
                            assert(bs1[i] == bs0[oi]);
                        }
                    }
                    // Membership is exact for the grown dictionary.
                    assert forall|i: int, x: Seq<u8>| 0 <= i < bs1.len() implies (
                    #[trigger] word_in(bs1[i].1@, x) <==> (dict_contains(d1, x) && pattern_of(x)
                        == bs1[i].0@)) by {
                        if i == last {
                            lemma_word_in_push(bs0[bi as int].1@, wc, x);
                            assert(word_in(bs0[bi as int].1@, x) <==> (dict_contains(d, x)
                                && pattern_of(x) == bs0[bi as int].0@));
                        } else {
                            let oi = if i < bi as int {
                                i
                            } else {
                                i + 1
                            };
                            assert(bs1[i] == bs0[oi]);
                            assert(word_in(bs0[oi].1@, x) <==> (dict_contains(d, x) && pattern_of(x)
                                == bs0[oi].0@));
                            if x == w@ && pattern_of(x) == bs1[i].0@ {
                                // The word's own pattern names the touched
                                // bucket, and keys are distinct.
                                assert(bs0[oi].0@ == bs0[bi as int].0@);
                                if oi < bi as int {
                                    assert((bs0[oi]).0@ != (bs0[bi as int]).0@);
                                } else {
                                    assert((bs0[bi as int]).0@ != (bs0[oi]).0@);
                                }
                            }
                        }
                    }
                    // Every dictionary word still names some bucket.
                    assert forall|x: Seq<u8>| #[trigger] dict_contains(d1, x) implies exists|i: int|
                        0 <= i < bs1.len() && (#[trigger] bs1[i]).0@ == pattern_of(x) by {
                        if x == w@ {
                            assert(bs1[last].0@ == pattern_of(x));
                        } else {
                            let oi = choose|i: int|
                                0 <= i < bs0.len() && (#[trigger] bs0[i]).0@ == pattern_of(x);
                            if oi == bi as int {
                                assert(bs1[last].0@ == pattern_of(x));
                            } else if oi < bi as int {
                                assert(bs1[oi].0@ == pattern_of(x));
                            } else {
                                assert(bs1[oi - 1].0@ == pattern_of(x));
                            }
                        }
                    }
                }
            }
        },
        None => {
            let ghost bs0 = bs@;
            let mut bucket: Vec<Vec<u8>> = Vec::new();
            bucket.push(copy_word(w));
            bs.push((p, bucket));
            proof {
                let bs1 = bs@;
                let last = bs1.len() - 1;
                assert(bs1 =~= bs0.push(bs1[last]));
                assert(bs1[last].0@ == pattern_of(w@));
                assert(bs1[last].1@.len() == 1 && bs1[last].1@[0]@ == w@);
                assert forall|k: int| 0 <= k < last implies bs1[k] == bs0[k] by {}
                assert forall|a: int, b: int| 0 <= a < b < bs1.len() implies (#[trigger] bs1[a]).0@
                    != (#[trigger] bs1[b]).0@ by {
                    if b == last {
                        assert(bs1[a] == bs0[a]);
                        assert((bs0[a]).0@ != p@);
                    } else {
                        assert(bs1[a] == bs0[a]);
                        assert(bs1[b] == bs0[b]);
                    }
                }
                assert forall|i: int| 0 <= i < bs1.len() implies words_distinct(
                    (#[trigger] bs1[i]).1@,
                ) by {
                    if i < last {
                        assert(bs1[i] == bs0[i]);
                    }
                }
                assert forall|i: int, x: Seq<u8>| 0 <= i < bs1.len() implies (#[trigger] word_in(
                    bs1[i].1@,
                    x,
                ) <==> (dict_contains(d1, x) && pattern_of(x) == bs1[i].0@)) by {
                    if i == last {
                        if word_in(bs1[i].1@, x) {
                            let k = choose|k: int|
                                0 <= k < bs1[i].1@.len() && (#[trigger] bs1[i].1@[k])@ == x;
                            assert(k == 0);
                            assert(x == w@);
                        }
                        if x == w@ {
                            assert((bs1[i].1@[0])@ == x);
                        }
                        if dict_contains(d, x) && pattern_of(x) == p@ {
                            // Then the pattern would already have had a
                            // bucket, contradicting the failed search.
                            let oi = choose|oi: int|
                                0 <= oi < bs0.len() && (#[trigger] bs0[oi]).0@ == pattern_of(x);
                            assert(false);
                        }
                    } else {
                        assert(bs1[i] == bs0[i]);
                        assert(word_in(bs0[i].1@, x) <==> (dict_contains(d, x) && pattern_of(x)
                            == bs0[i].0@));
                        if x == w@ && pattern_of(x) == bs1[i].0@ {
                            assert((bs0[i]).0@ != p@);
                            assert(false);
                        }
                    }
                }
                assert forall|x: Seq<u8>| #[trigger] dict_contains(d1, x) implies exists|i: int|
                    0 <= i < bs1.len() && (#[trigger] bs1[i]).0@ == pattern_of(x) by {
                    if x == w@ {
                        assert(bs1[last].0@ == pattern_of(x));
                    } else {
                        let oi = choose|i: int|
                            0 <= i < bs0.len() && (#[trigger] bs0[i]).0@ == pattern_of(x);
                        assert(bs1[oi].0@ == pattern_of(x));
                    }
                }
            }
        },
    }
}

/// The position index mid-insertion: the first `j` positions of word `w`
/// have been recorded on top of a complete index for `d`.
spec fn position_buckets_mid(
    bs: Seq<(usize, u8, Vec<Vec<u8>>)>,
    d: Seq<Seq<u8>>,
    w: Seq<u8>,
    j: int,
) -> bool {
    &&& forall|a: int, b: int|
        0 <= a < b < bs.len() ==> !((#[trigger] bs[a]).0 == (#[trigger] bs[b]).0 && bs[a].1
            == bs[b].1)
    &&& forall|i: int| 0 <= i < bs.len() ==> words_distinct((#[trigger] bs[i]).2@)
    &&& forall|i: int, x: Seq<u8>|
        0 <= i < bs.len() ==> (#[trigger] word_in(bs[i].2@, x) <==> ((dict_contains(d, x)
            && bs[i].0 < x.len() && x[bs[i].0 as int] == bs[i].1) || (x == w && bs[i].0 < j && w[bs[i].0 as int] == bs[i].1)))
    &&& forall|x: Seq<u8>, idx: int|
        #![trigger dict_contains(d, x), x[idx]]
        dict_contains(d, x) && 0 <= idx < x.len() ==> has_position_bucket(bs, idx, x[idx])
    &&& forall|idx: int|
        #![trigger w[idx]]
        0 <= idx < j ==> has_position_bucket(bs, idx, w[idx])
}

/// Record position `j` of word `w` in the position index.
fn insert_position_entry(
    bs: &mut Vec<(usize, u8, Vec<Vec<u8>>)>,
    w: &Vec<u8>,
    j: usize,
    Ghost(d): Ghost<Seq<Seq<u8>>>,
)
    requires
        position_buckets_mid(old(bs)@, d, w@, j as int),
        j < w@.len(),
    ensures
        position_buckets_mid(final(bs)@, d, w@, j as int + 1),
{
    let u = w[j];
    proof {
        assert(position_buckets_mid(bs@, d, w@, j as int));
    }
    match find_position_bucket(bs, j, u) {
        Some(bi) => {
            let ghost bs0 = bs@;
            proof {
                assert(position_buckets_mid(bs0, d, w@, j as int));
            }
            if word_in_vec(&bs[bi].2, w) {
                // Already recorded: the only new obligation is membership of
                // `w` in this very bucket, which holds.
                proof {
                    assert(word_in(bs0[bi as int].2@, w@));
                    assert forall|i: int, x: Seq<u8>| 0 <= i < bs0.len() implies (
                    #[trigger] word_in(bs0[i].2@, x) <==> ((dict_contains(d, x) && bs0[i].0 < x.len()
                        && x[bs0[i].0 as int] == bs0[i].1) || (x == w@ && bs0[i].0 < j as int + 1
                        && w@[bs0[i].0 as int] == bs0[i].1))) by {
                        assert(word_in(bs0[i].2@, x) <==> ((dict_contains(d, x) && bs0[i].0 < x.len()
                            && x[bs0[i].0 as int] == bs0[i].1) || (x == w@ && bs0[i].0 < j as int
                            && w@[bs0[i].0 as int] == bs0[i].1)));
                        if x == w@ && bs0[i].0 == j && w@[bs0[i].0 as int] == bs0[i].1 {
                            if i < bi as int {
                                assert(!((bs0[i]).0 == (bs0[bi as int]).0 && bs0[i].1 == bs0[bi as int].1));
                                assert(false);
                            } else if i > bi as int {
                                assert(!((bs0[bi as int]).0 == (bs0[i]).0 && bs0[bi as int].1 == bs0[i].1));
                                assert(false);
                            }
                        }
                    }
                    assert forall|idx: int| #![trigger w@[idx]] 0 <= idx < j as int + 1 implies has_position_bucket(bs0, idx, w@[idx]) by {
                        let v = w@[idx];
                        if idx == j as int {
                            assert((bs0[bi as int]).0 as int == idx && bs0[bi as int].1 == w@[idx]);
                        } else {
                            assert(has_position_bucket(bs0, idx, w@[idx]));
                        }
                    }
                }
            } else {
                let mut entry = bs.remove(bi);
                entry.2.push(copy_word(w));
                bs.push(entry);
                proof {
                    let bs1 = bs@;
                    let last = bs1.len() - 1;
                    assert(bs1 =~= bs0.remove(bi as int).push(bs1[last]));
                    assert(bs1[last].0 == j && bs1[last].1 == u);
                    assert(bs1[last].2@ =~= bs0[bi as int].2@.push(bs1[last].2@.last()));
                    let wc = bs1[last].2@.last();
                    assert(wc@ == w@);
                    assert forall|k: int| 0 <= k < last implies bs1[k] == (if k < bi as int {
                        bs0[k]
                    } else {
                        bs0[k + 1]
                    }) by {}
                    assert forall|a: int, b: int| 0 <= a < b < bs1.len() implies !((
                    #[trigger] bs1[a]).0 == (#[trigger] bs1[b]).0 && bs1[a].1 == bs1[b].1) by {
                        let oa = if a < bi as int {
                            a
                        } else {
                            a + 1
                        };
                        if b == last {
                            assert(bs1[a] == bs0[oa]);
                            assert(oa != bi as int);
                            if oa < bi as int {
                                assert(!((bs0[oa]).0 == (bs0[bi as int]).0 && bs0[oa].1 == bs0[bi as int].1));
                            } else {
                                assert(!((bs0[bi as int]).0 == (bs0[oa]).0 && bs0[bi as int].1 == bs0[oa].1));
                            }
                        } else {
                            let ob = if b < bi as int {
                                b
                            } else {
                                b + 1
                            };
                            assert(bs1[a] == bs0[oa]);
                            assert(bs1[b] == bs0[ob]);
                        }
                    }
                    assert forall|i: int| 0 <= i < bs1.len() implies words_distinct(
                        (#[trigger] bs1[i]).2@,
                    ) by {
                        if i == last {
                            let olds = bs0[bi as int].2@;
                            assert(words_distinct(olds));
                            assert(!word_in(olds, w@));
                            assert forall|a: int, b: int|
                                0 <= a < b < bs1[i].2@.len() implies (#[trigger] bs1[i].2@[a])@ != (
                            #[trigger] bs1[i].2@[b])@ by {
                                if b == bs1[i].2@.len() - 1 {
                                    assert(bs1[i].2@[a] == olds[a]);
                                    if olds[a]@ == w@ {
                                        assert(word_in(olds, w@));
                                    }
                                } else {
                                    assert(bs1[i].2@[a] == olds[a]);
                                    assert(bs1[i].2@[b] == olds[b]);
                                }
                            }
                        } else {
                            let oi = if i < bi as int {
                                i
                            } else {
                                i + 1
                            };
                            assert(bs1[i] == bs0[oi]);
                        }
                    }
                    assert forall|i: int, x: Seq<u8>| 0 <= i < bs1.len() implies (
                    #[trigger] word_in(bs1[i].2@, x) <==> ((dict_contains(d, x) && bs1[i].0 < x.len()
                        && x[bs1[i].0 as int] == bs1[i].1) || (x == w@ && bs1[i].0 < j as int + 1
                        && w@[bs1[i].0 as int] == bs1[i].1))) by {
                        if i == last {
                            lemma_word_in_push(bs0[bi as int].2@, wc, x);
                            assert(word_in(bs0[bi as int].2@, x) <==> ((dict_contains(d, x) && bs0[bi as int].0
                                < x.len() && x[bs0[bi as int].0 as int] == bs0[bi as int].1) || (x == w@
                                && bs0[bi as int].0 < j as int && w@[bs0[bi as int].0 as int] == bs0[bi as int].1)));
                        } else {
                            let oi = if i < bi as int {
                                i
                            } else {
                                i + 1
                            };
                            assert(bs1[i] == bs0[oi]);
                            assert(word_in(bs0[oi].2@, x) <==> ((dict_contains(d, x) && bs0[oi].0
                                < x.len() && x[bs0[oi].0 as int] == bs0[oi].1) || (x == w@
                                && bs0[oi].0 < j as int && w@[bs0[oi].0 as int] == bs0[oi].1)));
                            if x == w@ && bs1[i].0 == j && w@[bs1[i].0 as int] == bs1[i].1 {
                                // This bucket would carry the key of the
                                // touched bucket, but keys are distinct.
                                if oi < bi as int {
                                    assert(!((bs0[oi]).0 == (bs0[bi as int]).0 && bs0[oi].1 == bs0[bi as int].1));
                                } else {
                                    assert(!((bs0[bi as int]).0 == (bs0[oi]).0 && bs0[bi as int].1 == bs0[oi].1));
                                }
                                assert(false);
                            }
                        }
                    }
                    assert forall|x: Seq<u8>, idx: int|
                        #![trigger dict_contains(d, x), x[idx]]
                        dict_contains(d, x) && 0 <= idx < x.len() implies has_position_bucket(bs1, idx, x[idx]) by {
                        let v = x[idx];
                        assert(has_position_bucket(bs0, idx, x[idx]));
                        let oi = choose|i: int|
                            0 <= i < bs0.len() && (#[trigger] bs0[i]).0 as int == idx && bs0[i].1
                                == x[idx];
                        if oi == bi as int {
                            assert((bs1[last]).0 as int == idx && bs1[last].1 == x[idx]);
                        } else if oi < bi as int {
                            assert((bs1[oi]).0 as int == idx && bs1[oi].1 == x[idx]);
                        } else {
                            assert((bs1[oi - 1]).0 as int == idx && bs1[oi - 1].1 == x[idx]);
                        }
                    }
                    assert forall|idx: int| #![trigger w@[idx]] 0 <= idx < j as int + 1 implies has_position_bucket(bs1, idx, w@[idx]) by {
                        if idx == j as int {
                            assert((bs1[last]).0 as int == idx && bs1[last].1 == w@[idx]);
                        } else {
                            let oi = choose|i: int|
                                0 <= i < bs0.len() && (#[trigger] bs0[i]).0 as int == idx && bs0[i].1 == w@[idx];
                            if oi == bi as int {
                                assert((bs1[last]).0 as int == idx && bs1[last].1 == w@[idx]);
                            } else if oi < bi as int {
                                assert((bs1[oi]).0 as int == idx && bs1[oi].1 == w@[idx]);
                            } else {
                                assert((bs1[oi - 1]).0 as int == idx && bs1[oi - 1].1 == w@[idx]);
                            }
                        }
                    }
                }
            }
        },
        None => {
            let ghost bs0 = bs@;
            proof {
                assert(position_buckets_mid(bs0, d, w@, j as int));
            }
            let mut bucket: Vec<Vec<u8>> = Vec::new();
            bucket.push(copy_word(w));
            bs.push((j, u, bucket));
            proof {
                let bs1 = bs@;
                let last = bs1.len() - 1;
                assert(bs1 =~= bs0.push(bs1[last]));
                assert(bs1[last].0 == j && bs1[last].1 == u);
                assert(bs1[last].2@.len() == 1 && bs1[last].2@[0]@ == w@);
                assert forall|k: int| 0 <= k < last implies bs1[k] == bs0[k] by {}
                assert forall|a: int, b: int| 0 <= a < b < bs1.len() implies !((#[trigger] bs1[a]).0
                    == (#[trigger] bs1[b]).0 && bs1[a].1 == bs1[b].1) by {
                    if b == last {
                        assert(bs1[a] == bs0[a]);
                        assert(!((bs0[a]).0 == j && bs0[a].1 == u));
                    } else {
                        assert(bs1[a] == bs0[a]);
                        assert(bs1[b] == bs0[b]);
                    }
                }
                assert forall|i: int| 0 <= i < bs1.len() implies words_distinct(
                    (#[trigger] bs1[i]).2@,
                ) by {
                    if i < last {
                        assert(bs1[i] == bs0[i]);
                    }
                }
                assert forall|i: int, x: Seq<u8>| 0 <= i < bs1.len() implies (#[trigger] word_in(
                    bs1[i].2@,
                    x,
                ) <==> ((dict_contains(d, x) && bs1[i].0 < x.len() && x[bs1[i].0 as int] == bs1[i].1) || (x == w@ && bs1[i].0 < j as int + 1 && w@[bs1[i].0 as int] == bs1[i].1))) by {
                    if i == last {
                        if word_in(bs1[i].2@, x) {
                            let k = choose|k: int|
                                0 <= k < bs1[i].2@.len() && (#[trigger] bs1[i].2@[k])@ == x;
                            assert(k == 0);
                            assert(x == w@);
                        }
                        if x == w@ {
                            assert((bs1[i].2@[0])@ == x);
                        }
                        if dict_contains(d, x) && (j as int) < x.len() && x[j as int] == u {
                            // The key (j, u) would already have had a bucket.
                            let oi = choose|oi: int|
                                0 <= oi < bs0.len() && (#[trigger] bs0[oi]).0 as int == j as int
                                    && bs0[oi].1 == x[j as int];
                            assert(false);
                        }
                    } else {
                        assert(bs1[i] == bs0[i]);
                        assert(word_in(bs0[i].2@, x) <==> ((dict_contains(d, x) && bs0[i].0 < x.len()
                            && x[bs0[i].0 as int] == bs0[i].1) || (x == w@ && bs0[i].0 < j as int
                            && w@[bs0[i].0 as int] == bs0[i].1)));
                        if x == w@ && bs1[i].0 == j && w@[bs1[i].0 as int] == bs1[i].1 {
                            assert(!((bs0[i]).0 == j && bs0[i].1 == u));
                            assert(false);
                        }
                    }
                }
                assert forall|x: Seq<u8>, idx: int|
                    #![trigger dict_contains(d, x), x[idx]]
                    dict_contains(d, x) && 0 <= idx < x.len() implies has_position_bucket(bs1, idx, x[idx]) by {
                    let v = x[idx];
                    assert(has_position_bucket(bs0, idx, x[idx]));
                    let oi = choose|i: int|
                        0 <= i < bs0.len() && (#[trigger] bs0[i]).0 as int == idx && bs0[i].1
                            == x[idx];
                    assert((bs1[oi]).0 as int == idx && bs1[oi].1 == x[idx]);
                }
                assert forall|idx: int| #![trigger w@[idx]] 0 <= idx < j as int + 1 implies has_position_bucket(bs1, idx, w@[idx]) by {
                    if idx == j as int {
                        assert((bs1[last]).0 as int == idx && bs1[last].1 == w@[idx]);
                    } else {
                        let v = w@[idx];
                        assert(has_position_bucket(bs0, idx, w@[idx]));
                        let oi = choose|i: int|
                            0 <= i < bs0.len() && (#[trigger] bs0[i]).0 as int == idx && bs0[i].1
                                == w@[idx];
                        assert((bs1[oi]).0 as int == idx && bs1[oi].1 == w@[idx]);
                    }
                }
            }
        },
    }
}

/// A complete position index for `d` is the mid-insertion state of any word
/// with none of its positions recorded yet.
proof fn lemma_position_ok_to_mid(bs: Seq<(usize, u8, Vec<Vec<u8>>)>, d: Seq<Seq<u8>>, w: Seq<u8>)
    requires
        position_buckets_ok(bs, d),
    ensures
        position_buckets_mid(bs, d, w, 0),
{
    assert forall|i: int, x: Seq<u8>| 0 <= i < bs.len() implies (#[trigger] word_in(bs[i].2@, x)
        <==> ((dict_contains(d, x) && bs[i].0 < x.len() && x[bs[i].0 as int] == bs[i].1) || (x == w
        && bs[i].0 < 0 && w[bs[i].0 as int] == bs[i].1))) by {
        assert(word_in(bs[i].2@, x) <==> (dict_contains(d, x) && bs[i].0 < x.len() && x[bs[i].0 as int] == bs[i].1));
    }
    assert forall|x: Seq<u8>, idx: int|
        #![trigger dict_contains(d, x), x[idx]]
        dict_contains(d, x) && 0 <= idx < x.len() implies has_position_bucket(bs, idx, x[idx]) by {
        let v = x[idx];
        assert(dict_contains(d, x));
    }
}

/// Record every position of word `w` in the position index.
fn insert_position_entries(bs: &mut Vec<(usize, u8, Vec<Vec<u8>>)>, w: &Vec<u8>, Ghost(d): Ghost<
    Seq<Seq<u8>>,
>)
    requires
        position_buckets_ok(old(bs)@, d),
    ensures
        position_buckets_ok(final(bs)@, d.push(w@)),
{
    let ghost d1 = d.push(w@);
    proof {
        lemma_position_ok_to_mid(bs@, d, w@);
    }
    let n = w.len();
    let mut j: usize = 0;
    while j < n
        invariant
            n == w@.len(),
            j <= n,
            position_buckets_mid(bs@, d, w@, j as int),
        decreases n - j,
    {
        insert_position_entry(bs, w, j, Ghost(d));
        j += 1;
    }
    proof {
        lemma_position_mid_complete(bs@, d, w@);
    }
}

/// A position index holding every position of `w` on top of `d` is exactly a
/// position index for the dictionary grown by `w`.
proof fn lemma_position_mid_complete(bs: Seq<(usize, u8, Vec<Vec<u8>>)>, d: Seq<Seq<u8>>, w: Seq<u8>)
    requires
        position_buckets_mid(bs, d, w, w.len() as int),
    ensures
        position_buckets_ok(bs, d.push(w)),
{
    let d1 = d.push(w);
    assert forall|i: int, x: Seq<u8>| 0 <= i < bs.len() implies (#[trigger] word_in(bs[i].2@, x)
        <==> (dict_contains(d1, x) && bs[i].0 < x.len() && x[bs[i].0 as int] == bs[i].1)) by {
        lemma_dict_push(d, w, x);
        assert(word_in(bs[i].2@, x) <==> ((dict_contains(d, x) && bs[i].0 < x.len() && x[bs[i].0 as int] == bs[i].1) || (x == w && bs[i].0 < w.len() && w[bs[i].0 as int] == bs[i].1)));
    }
    assert forall|x: Seq<u8>, idx: int|
        #![trigger dict_contains(d1, x), x[idx]]
        dict_contains(d1, x) && 0 <= idx < x.len() implies has_position_bucket(bs, idx, x[idx]) by {
        lemma_dict_push(d, w, x);
        if dict_contains(d, x) {
            let v = x[idx];
            assert(has_position_bucket(bs, idx, x[idx]));
        } else {
            assert(x == w);
            assert(w[idx] == x[idx]);
            assert(has_position_bucket(bs, idx, w[idx]));
        }
    }
}

/// Every dictionary word is lowercase ASCII.
pub open spec fn dict_lower(d: Seq<Seq<u8>>) -> bool {
    forall|w: Seq<u8>| #[trigger] dict_contains(d, w) ==> lower_ascii(w)
}

/// The solver: two derived lookup structures built once from the word list
/// and never mutated afterward, read-only for the lifetime of all searches.
pub struct Solver {
    words_by_pattern: Vec<(Pattern, Vec<Vec<u8>>)>,
    words_by_character_and_index: Vec<(usize, u8, Vec<Vec<u8>>)>,
    dictionary: Ghost<Seq<Seq<u8>>>,
}

impl Solver {
    /// The word list the index was built from.
    pub closed spec fn dict(self) -> Seq<Seq<u8>> {
        self.dictionary@
    }

    #[verifier::type_invariant]
    spec fn inv(self) -> bool {
        &&& pattern_buckets_ok(self.words_by_pattern@, self.dictionary@)
        &&& position_buckets_ok(self.words_by_character_and_index@, self.dictionary@)
        &&& dict_lower(self.dictionary@)
    }

    /// Build the dictionary index: every word is recorded under its canonical
    /// pattern and under every (position, byte) pair it carries. Duplicate
    /// words are tolerated and recorded once.
    pub fn from_dictionary(words: &Vec<Phrase>) -> (s: Solver)
        ensures
            s.dict() == words@.map_values(|p: Phrase| p@),
    {
        let mut wp: Vec<(Pattern, Vec<Vec<u8>>)> = Vec::new();
        let mut wc: Vec<(usize, u8, Vec<Vec<u8>>)> = Vec::new();
        let ghost mut d = Seq::<Seq<u8>>::empty();
        proof {
            assert forall|x: Seq<u8>| !#[trigger] dict_contains(d, x) by {
                if dict_contains(d, x) {
                    let k = choose|k: int| 0 <= k < d.len() && #[trigger] d[k] == x;
                }
            }
        }
        let n = words.len();
        let mut k: usize = 0;
        while k < n
            invariant
                n == words@.len(),
                k <= n,
                pattern_buckets_ok(wp@, d),
                position_buckets_ok(wc@, d),
                dict_lower(d),
                d == words@.take(k as int).map_values(|p: Phrase| p@),
            decreases n - k,
        {
            let w = copy_word(words[k].as_bytes());
            insert_pattern_entry(&mut wp, &w, Ghost(d));
            insert_position_entries(&mut wc, &w, Ghost(d));
            proof {
                assert forall|x: Seq<u8>| #[trigger]
                    dict_contains(d.push(w@), x) implies lower_ascii(x) by {
                    lemma_dict_push(d, w@, x);
                }
                d = d.push(w@);
                assert(d =~= words@.take(k as int + 1).map_values(|p: Phrase| p@));
            }
            k += 1;
        }
        proof {
            assert(words@.take(n as int) =~= words@);
        }
        Solver { words_by_pattern: wp, words_by_character_and_index: wc, dictionary: Ghost(d) }
    }

    /// The set of dictionary words sharing the canonical pattern of `word`;
    /// empty when the pattern is unseen. Total: never fails.
    pub fn words_by_pattern(&self, word: &Vec<u8>) -> (r: Vec<Vec<u8>>)
        ensures
            words_distinct(r@),
            forall|x: Seq<u8>| #[trigger]
                word_in(r@, x) <==> (dict_contains(self.dict(), x) && pattern_of(x) == pattern_of(
                    word@,
                )),
    {
        proof {
            use_type_invariant(&*self);
        }
        let p = Pattern::of_bytes(word);
        match find_pattern_bucket(&self.words_by_pattern, &p) {
            Some(bi) => {
                let r = copy_words(&self.words_by_pattern[bi].1);
                proof {
                    let bucket = self.words_by_pattern@[bi as int].1@;
                    assert forall|x: Seq<u8>| #[trigger] word_in(r@, x) <==> word_in(
                        bucket,
                        x,
                    ) by {
                        if word_in(r@, x) {
                            let k = choose|k: int| 0 <= k < r@.len() && (#[trigger] r@[k])@ == x;
                            assert((bucket[k])@ == x);
                        }
                        if word_in(bucket, x) {
                            let k = choose|k: int|
                                0 <= k < bucket.len() && (#[trigger] bucket[k])@ == x;
                            assert((r@[k])@ == x);
                        }
                    }
                    assert forall|x: Seq<u8>| #[trigger]
                        word_in(r@, x) <==> (dict_contains(self.dict(), x) && pattern_of(x)
                        == pattern_of(word@)) by {
                        assert(word_in(bucket, x) <==> (dict_contains(self.dictionary@, x)
                            && pattern_of(x) == self.words_by_pattern@[bi as int].0@));
                    }
                    assert(words_distinct(r@)) by {
                        assert forall|a: int, b: int| 0 <= a < b < r@.len() implies (
                        #[trigger] r@[a])@ != (#[trigger] r@[b])@ by {
                            assert(words_distinct(bucket));
                            assert((bucket[a])@ != (bucket[b])@);
                        }
                    }
                }
                r
            },
            None => {
                let r: Vec<Vec<u8>> = Vec::new();
                proof {
                    assert forall|x: Seq<u8>| #[trigger]
                        word_in(r@, x) <==> (dict_contains(self.dict(), x) && pattern_of(x)
                        == pattern_of(word@)) by {
                        if word_in(r@, x) {
                            let k = choose|k: int| 0 <= k < r@.len() && (#[trigger] r@[k])@ == x;
                        }
                        if dict_contains(self.dictionary@, x) && pattern_of(x) == pattern_of(
                            word@,
                        ) {
                            let i = choose|i: int|
                                0 <= i < self.words_by_pattern@.len() && (
                                #[trigger] self.words_by_pattern@[i]).0@ == pattern_of(x);
                            assert(false);
                        }
                    }
                }
                r
            },
        }
    }

    /// The set of dictionary words carrying byte `u` at position `idx`;
    /// empty when that pair is unseen. Total: never fails.
    pub fn words_by_character_and_index(&self, u: u8, idx: usize) -> (r: Vec<Vec<u8>>)
        ensures
            words_distinct(r@),
            forall|x: Seq<u8>| #[trigger]
                word_in(r@, x) <==> (dict_contains(self.dict(), x) && idx < x.len() && x[idx as int]
                    == u),
    {
        proof {
            use_type_invariant(&*self);
        }
        match find_position_bucket(&self.words_by_character_and_index, idx, u) {
            Some(bi) => {
                let r = copy_words(&self.words_by_character_and_index[bi].2);
                proof {
                    let bucket = self.words_by_character_and_index@[bi as int].2@;
                    assert forall|x: Seq<u8>| #[trigger] word_in(r@, x) <==> word_in(
                        bucket,
                        x,
                    ) by {
                        if word_in(r@, x) {
                            let k = choose|k: int| 0 <= k < r@.len() && (#[trigger] r@[k])@ == x;
                            assert((bucket[k])@ == x);
                        }
                        if word_in(bucket, x) {
                            let k = choose|k: int|
                                0 <= k < bucket.len() && (#[trigger] bucket[k])@ == x;
                            assert((r@[k])@ == x);
                        }
                    }
                    assert forall|x: Seq<u8>| #[trigger]
                        word_in(r@, x) <==> (dict_contains(self.dict(), x) && idx < x.len()
                        && x[idx as int] == u) by {
                        assert(word_in(bucket, x) <==> (dict_contains(self.dictionary@, x)
                            && self.words_by_character_and_index@[bi as int].0 < x.len()
                            && x[self.words_by_character_and_index@[bi as int].0 as int]
                            == self.words_by_character_and_index@[bi as int].1));
                    }
                    assert(words_distinct(r@)) by {
                        assert forall|a: int, b: int| 0 <= a < b < r@.len() implies (
                        #[trigger] r@[a])@ != (#[trigger] r@[b])@ by {
                            assert(words_distinct(bucket));
                            assert((bucket[a])@ != (bucket[b])@);
                        }
                    }
                }
                r
            },
            None => {
                let r: Vec<Vec<u8>> = Vec::new();
                proof {
                    assert forall|x: Seq<u8>| #[trigger]
                        word_in(r@, x) <==> (dict_contains(self.dict(), x) && idx < x.len()
                        && x[idx as int] == u) by {
                        if word_in(r@, x) {
                            let k = choose|k: int| 0 <= k < r@.len() && (#[trigger] r@[k])@ == x;
                        }
                        if dict_contains(self.dictionary@, x) && idx < x.len() && x[idx as int]
                            == u {
                            assert(has_position_bucket(
                                self.words_by_character_and_index@,
                                idx as int,
                                x[idx as int],
                            ));
                            let i = choose|i: int|
                                0 <= i < self.words_by_character_and_index@.len() && (
                                #[trigger] self.words_by_character_and_index@[i]).0 as int
                                    == idx as int && self.words_by_character_and_index@[i].1 == x[
                                    idx as int
                                ];
                            assert(false);
                        }
                    }
                }
                r
            },
        }
    }
}

/// A word occurring in a one-longer prefix occurs in the shorter prefix or
/// at the new position.
proof fn lemma_has_byte_take_push(s: Seq<u8>, i: int, k: u8)
    requires
        0 <= i < s.len(),
    ensures
        has_byte(s.take(i + 1), k) <==> (has_byte(s.take(i), k) || s[i] == k),
{
    if has_byte(s.take(i + 1), k) {
        let j = choose|j: int| 0 <= j < s.take(i + 1).len() && #[trigger] s.take(i + 1)[j] == k;
        if j < i {
            assert(s.take(i)[j] == k);
        }
    }
    if has_byte(s.take(i), k) {
        let j = choose|j: int| 0 <= j < s.take(i).len() && #[trigger] s.take(i)[j] == k;
        assert(s.take(i + 1)[j] == k);
    }
    if s[i] == k {
        assert(s.take(i + 1)[i] == k);
    }
}

/// A dictionary word is a candidate decryption of token `word` under mapping
/// `m` when it shares the token's canonical pattern and carries the committed
/// byte at every position whose encrypted byte is already mapped.
pub open spec fn candidate_ok(d: Seq<Seq<u8>>, m: Map<u8, u8>, word: Seq<u8>, x: Seq<u8>) -> bool {
    &&& dict_contains(d, x)
    &&& pattern_of(x) == pattern_of(word)
    &&& forall|i: int|
        0 <= i < word.len() && m.contains_key(#[trigger] word[i]) ==> x[i] == m[word[i]]
}

/// Decoding token `enc` as `word` is consistent with mapping `m` and keeps
/// the extended mapping injective: repeated encrypted bytes decode alike
/// (and conversely), and committed assignments are respected in both
/// directions.
pub open spec fn can_extend(word: Seq<u8>, enc: Seq<u8>, m: Map<u8, u8>) -> bool {
    &&& forall|i: int, j: int|
        #![trigger enc[i], enc[j]]
        0 <= i < enc.len() && 0 <= j < enc.len() && enc[i] == enc[j] ==> word[i] == word[j]
    &&& forall|i: int|
        0 <= i < enc.len() && m.contains_key(#[trigger] enc[i]) ==> m[enc[i]] == word[i]
    &&& forall|i: int, j: int|
        #![trigger word[i], word[j]]
        0 <= i < enc.len() && 0 <= j < enc.len() && word[i] == word[j] ==> enc[i] == enc[j]
    &&& forall|i: int, k: u8|
        #![trigger word[i], m.contains_key(k)]
        0 <= i < enc.len() && m.contains_key(k) && m[k] == word[i] ==> k == enc[i]
}

/// The words present in both lists.
fn retain_in(candidates: Vec<Vec<u8>>, bucket: &Vec<Vec<u8>>) -> (r: Vec<Vec<u8>>)
    requires
        words_distinct(candidates@),
    ensures
        words_distinct(r@),
        forall|x: Seq<u8>| #[trigger]
            word_in(r@, x) <==> (word_in(candidates@, x) && word_in(bucket@, x)),
{
    let n = candidates.len();
    let mut r: Vec<Vec<u8>> = Vec::new();
    let mut i: usize = 0;
    while i < n
        invariant
            n == candidates@.len(),
            i <= n,
            words_distinct(candidates@),
            words_distinct(r@),
            forall|x: Seq<u8>| #[trigger]
                word_in(r@, x) <==> (word_in(candidates@.take(i as int), x) && word_in(
                    bucket@,
                    x,
                )),
        decreases n - i,
    {
        let ghost r0 = r@;
        let ghost pre = candidates@.take(i as int);
        let ghost pre1 = candidates@.take(i as int + 1);
        let keep = word_in_vec(bucket, &candidates[i]);
        if keep {
            let w = copy_word(&candidates[i]);
            proof {
                // The word is new to `r`: it is not in the shorter prefix.
                assert(!word_in(r0, candidates@[i as int]@)) by {
                    if word_in(r0, candidates@[i as int]@) {
                        assert(word_in(pre, candidates@[i as int]@));
                        let k = choose|k: int|
                            0 <= k < pre.len() && (#[trigger] pre[k])@ == candidates@[i as int]@;
                        assert((candidates@[k])@ == (candidates@[i as int])@);
                        assert(false);
                    }
                }
            }
            r.push(w);
            proof {
                assert forall|a: int, b: int| 0 <= a < b < r@.len() implies (#[trigger] r@[a])@
                    != (#[trigger] r@[b])@ by {
                    if b < r@.len() - 1 {
                        assert(r0[a] == r@[a] && r0[b] == r@[b]);
                    } else {
                        assert(r0[a] == r@[a]);
                        if r@[a]@ == candidates@[i as int]@ {
                            assert(word_in(r0, candidates@[i as int]@));
                        }
                    }
                }
            }
        }
        proof {
            assert forall|x: Seq<u8>| #[trigger]
                word_in(r@, x) <==> (word_in(pre1, x) && word_in(bucket@, x)) by {
                if word_in(r@, x) {
                    let k = choose|k: int| 0 <= k < r@.len() && (#[trigger] r@[k])@ == x;
                    if k < r0.len() {
                        assert(r0[k]@ == x);
                        assert(word_in(r0, x));
                        assert(word_in(pre, x));
                        let k2 = choose|k2: int| 0 <= k2 < pre.len() && (#[trigger] pre[k2])@ == x;
                        assert(pre1[k2]@ == x);
                    } else {
                        assert(x == candidates@[i as int]@);
                        assert(pre1[i as int]@ == x);
                    }
                }
                if word_in(pre1, x) && word_in(bucket@, x) {
                    let k = choose|k: int| 0 <= k < pre1.len() && (#[trigger] pre1[k])@ == x;
                    if k < i as int {
                        assert(pre[k]@ == x);
                        assert(word_in(pre, x));
                        assert(word_in(r0, x));
                        let k2 = choose|k2: int| 0 <= k2 < r0.len() && (#[trigger] r0[k2])@ == x;
                        assert(r@[k2]@ == x);
                    } else {
                        assert(x == candidates@[i as int]@);
                        assert(keep);
                        assert(r@[r@.len() - 1]@ == x);
                    }
                }
            }
        }
        i += 1;
    }
    proof {
        assert(candidates@.take(n as int) =~= candidates@);
    }
    r
}

impl Solver {
    /// The set of dictionary words that could decrypt `word` under the
    /// current mapping: structurally compatible words, narrowed position by
    /// position wherever the encrypted byte is already committed. May be
    /// empty; that is a normal outcome, not an error.
    pub fn find_candidate_matches(&self, word: &Vec<u8>, mapping: &Mapping) -> (r: Vec<Vec<u8>>)
        ensures
            words_distinct(r@),
            forall|x: Seq<u8>| #[trigger]
                word_in(r@, x) <==> candidate_ok(self.dict(), mapping@, word@, x),
    {
        let mut candidates = self.words_by_pattern(word);
        let n = word.len();
        let mut idx: usize = 0;
        while idx < n
            invariant
                n == word@.len(),
                idx <= n,
                words_distinct(candidates@),
                forall|x: Seq<u8>| #[trigger]
                    word_in(candidates@, x) <==> (dict_contains(self.dict(), x) && pattern_of(x)
                        == pattern_of(word@) && (forall|i: int|
                        0 <= i < idx && mapping@.contains_key(#[trigger] word@[i]) ==> x[i]
                            == mapping@[word@[i]])),
            decreases n - idx,
        {
            let u = word[idx];
            match mapping.get(u) {
                Some(c) => {
                    let bucket = self.words_by_character_and_index(c, idx);
                    let ghost cands0 = candidates@;
                    candidates = retain_in(candidates, &bucket);
                    proof {
                        assert forall|x: Seq<u8>| #[trigger]
                            word_in(candidates@, x) <==> (dict_contains(self.dict(), x)
                            && pattern_of(x) == pattern_of(word@) && (forall|i: int|
                            0 <= i < idx as int + 1 && mapping@.contains_key(#[trigger] word@[i])
                                ==> x[i] == mapping@[word@[i]])) by {
                            if word_in(candidates@, x) {
                                assert(word_in(cands0, x) && word_in(bucket@, x));
                                crate::pattern::lemma_pattern_structure(x);
                                assert(x.len() == pattern_of(x).len());
                                assert(x.len() == word@.len());
                                assert forall|i: int|
                                    0 <= i < idx as int + 1 && mapping@.contains_key(
                                        #[trigger] word@[i],
                                    ) implies x[i] == mapping@[word@[i]] by {
                                    if i < idx as int {
                                        assert(word_in(cands0, x));
                                    } else {
                                        assert(x[idx as int] == c);
                                    }
                                }
                            }
                            if dict_contains(self.dict(), x) && pattern_of(x) == pattern_of(word@)
                                && (forall|i: int|
                                0 <= i < idx as int + 1 && mapping@.contains_key(#[trigger] word@[i])
                                    ==> x[i] == mapping@[word@[i]]) {
                                assert(word_in(cands0, x));
                                assert(x.len() == pattern_of(x).len());
                                assert(x.len() == word@.len());
                                assert(x[idx as int] == mapping@[word@[idx as int]]);
                                assert(word_in(bucket@, x));
                            }
                        }
                    }
                },
                None => {
                    proof {
                        assert forall|x: Seq<u8>| #[trigger]
                            word_in(candidates@, x) <==> (dict_contains(self.dict(), x)
                            && pattern_of(x) == pattern_of(word@) && (forall|i: int|
                            0 <= i < idx as int + 1 && mapping@.contains_key(#[trigger] word@[i])
                                ==> x[i] == mapping@[word@[i]])) by {
                            if word_in(candidates@, x) {
                                assert forall|i: int|
                                    0 <= i < idx as int + 1 && mapping@.contains_key(
                                        #[trigger] word@[i],
                                    ) implies x[i] == mapping@[word@[i]] by {
                                    if i == idx as int {
                                        assert(!mapping@.contains_key(u));
                                    }
                                }
                            }
                        }
                    }
                },
            }
            idx += 1;
        }
        candidates
    }
}

impl Solver {
    /// Attempt to extend `mapping` so that it decodes `encrypted_word` to the
    /// candidate `word`: build the per-position correspondences, reject any
    /// conflict with the existing mapping or within the token itself, and
    /// reject a merged mapping that is not injective. Returns the extended
    /// mapping exactly when all checks pass.
    pub fn try_extend_mapping(&self, word: &Vec<u8>, encrypted_word: &Vec<u8>, mapping: &Mapping)
        -> (r: Option<Mapping>)
        requires
            word@.len() == encrypted_word@.len(),
        ensures
            match r {
                Some(m1) => {
                    &&& can_extend(word@, encrypted_word@, mapping@)
                    &&& injective(m1@)
                    &&& forall|k: u8| #[trigger]
                        m1@.contains_key(k) <==> (mapping@.contains_key(k) || has_byte(
                            encrypted_word@,
                            k,
                        ))
                    &&& forall|k: u8| #[trigger]
                        mapping@.contains_key(k) ==> m1@[k] == mapping@[k]
                    &&& forall|i: int|
                        0 <= i < encrypted_word@.len() ==> m1@.contains_key(
                            #[trigger] encrypted_word@[i],
                        ) && m1@[encrypted_word@[i]] == word@[i]
                },
                None => !can_extend(word@, encrypted_word@, mapping@),
            },
    {
        proof {
            use_type_invariant(&*mapping);
        }
        let ghost enc = encrypted_word@;
        let ghost wrd = word@;
        let ghost m0 = mapping@;
        let mut pairs = mapping.entries_copy();
        let ghost pairs0 = pairs@;
        let n = encrypted_word.len();
        proof {
            crate::mapping::lemma_map_of_injective(pairs0);
            crate::mapping::Mapping::lemma_view_is_entries(*mapping);
            assert forall|k: u8| !#[trigger] has_byte(enc.take(0), k) by {
                if has_byte(enc.take(0), k) {
                    let j = choose|j: int|
                        0 <= j < enc.take(0).len() && #[trigger] enc.take(0)[j] == k;
                }
            }
        }
        let mut i: usize = 0;
        while i < n
            invariant
                n == enc.len() == wrd.len(),
                i <= n,
                enc == encrypted_word@,
                wrd == word@,
                m0 == map_of(pairs0),
                m0 == mapping@,
                keys_distinct(pairs0),
                vals_distinct(pairs0),
                keys_distinct(pairs@),
                pairs@.len() >= pairs0.len(),
                pairs@.take(pairs0.len() as int) == pairs0,
                forall|k: u8| #[trigger]
                    map_of(pairs@).contains_key(k) <==> (m0.contains_key(k) || has_byte(
                        enc.take(i as int),
                        k,
                    )),
                forall|k: u8| #[trigger] m0.contains_key(k) ==> map_of(pairs@)[k] == m0[k],
                forall|j: int|
                    0 <= j < i ==> map_of(pairs@).contains_key(#[trigger] enc[j]) && map_of(
                        pairs@,
                    )[enc[j]] == wrd[j],
            decreases n - i,
        {
            let e = encrypted_word[i];
            let wv = word[i];
            let found = lookup(&pairs, e);
            match found {
                Some(v) => {
                    if v != wv {
                        proof {
                            assert(!can_extend(wrd, enc, m0)) by {
                                if can_extend(wrd, enc, m0) {
                                    if m0.contains_key(e) {
                                        // The committed image disagrees.
                                        assert(map_of(pairs@)[e] == m0[e]);
                                        assert(m0[enc[i as int]] == wrd[i as int]);
                                        assert(false);
                                    } else {
                                        // An earlier position of the token
                                        // disagrees.
                                        assert(has_byte(enc.take(i as int), e));
                                        let j = choose|j: int|
                                            0 <= j < enc.take(i as int).len() && #[trigger] enc.take(
                                                i as int,
                                            )[j] == e;
                                        assert(enc[j] == e);
                                        assert(map_of(pairs@)[enc[j]] == wrd[j]);
                                        assert(enc[j] == enc[i as int]);
                                        assert(wrd[j] == wrd[i as int]);
                                        assert(false);
                                    }
                                }
                            }
                        }
                        return None;
                    }
                    proof {
                        lemma_has_byte_take_push(enc, i as int, e);
                        assert forall|k: u8| #[trigger]
                            map_of(pairs@).contains_key(k) <==> (m0.contains_key(k) || has_byte(
                                enc.take(i as int + 1),
                                k,
                            )) by {
                            lemma_has_byte_take_push(enc, i as int, k);
                        }
                    }
                },
                None => {
                    let ghost pairsa = pairs@;
                    pairs.push((e, wv));
                    proof {
                        assert(pairs@.drop_last() =~= pairsa);
                        assert(map_of(pairs@) == map_of(pairsa).insert(e, wv));
                        // The key is new, so keys stay distinct.
                        crate::mapping::lemma_map_of_contains(pairsa, e);
                        assert forall|a: int, b: int|
                            0 <= a < b < pairs@.len() implies (#[trigger] pairs@[a]).0 != (
                        #[trigger] pairs@[b]).0 by {
                            if b == pairs@.len() - 1 {
                                assert(pairs@[a] == pairsa[a]);
                                if pairsa[a].0 == e {
                                    assert(exists|t: int|
                                        0 <= t < pairsa.len() && (#[trigger] pairsa[t]).0 == e);
                                }
                            } else {
                                assert(pairs@[a] == pairsa[a]);
                                assert(pairs@[b] == pairsa[b]);
                            }
                        }
                        assert(pairs@.take(pairs0.len() as int) =~= pairsa.take(
                            pairs0.len() as int,
                        ));
                        assert forall|k: u8| #[trigger]
                            map_of(pairs@).contains_key(k) <==> (m0.contains_key(k) || has_byte(
                                enc.take(i as int + 1),
                                k,
                            )) by {
                            lemma_has_byte_take_push(enc, i as int, k);
                        }
                    }
                },
            }
            i += 1;
        }
        proof {
            assert(enc.take(n as int) =~= enc);
        }
        // Defend against any pair of encrypted bytes decoding to the same
        // byte: the merged mapping must stay injective.
        let m = pairs.len();
        let mut a: usize = 0;
        while a < m
            invariant
                m == pairs@.len(),
                a <= m,
                n == enc.len() == wrd.len(),
                enc == encrypted_word@,
                wrd == word@,
                m0 == map_of(pairs0),
                m0 == mapping@,
                keys_distinct(pairs0),
                vals_distinct(pairs0),
                keys_distinct(pairs@),
                pairs@.len() >= pairs0.len(),
                pairs@.take(pairs0.len() as int) == pairs0,
                forall|k: u8| #[trigger]
                    map_of(pairs@).contains_key(k) <==> (m0.contains_key(k) || has_byte(enc, k)),
                forall|k: u8| #[trigger] m0.contains_key(k) ==> map_of(pairs@)[k] == m0[k],
                forall|j: int|
                    0 <= j < n ==> map_of(pairs@).contains_key(#[trigger] enc[j]) && map_of(
                        pairs@,
                    )[enc[j]] == wrd[j],
                forall|ta: int, tb: int|
                    0 <= ta < tb < pairs@.len() && ta < a ==> (#[trigger] pairs@[ta]).1 != (
                    #[trigger] pairs@[tb]).1,
            decreases m - a,
        {
            let mut b: usize = a + 1;
            while b < m
                invariant
                    m == pairs@.len(),
                    a < m,
                    a < b <= m,
                    n == enc.len() == wrd.len(),
                    enc == encrypted_word@,
                    wrd == word@,
                    m0 == map_of(pairs0),
                    m0 == mapping@,
                    keys_distinct(pairs0),
                    vals_distinct(pairs0),
                    keys_distinct(pairs@),
                    pairs@.len() >= pairs0.len(),
                    pairs@.take(pairs0.len() as int) == pairs0,
                    forall|k: u8| #[trigger]
                        map_of(pairs@).contains_key(k) <==> (m0.contains_key(k) || has_byte(
                            enc,
                            k,
                        )),
                    forall|k: u8| #[trigger] m0.contains_key(k) ==> map_of(pairs@)[k] == m0[k],
                    forall|j: int|
                        0 <= j < n ==> map_of(pairs@).contains_key(#[trigger] enc[j]) && map_of(
                            pairs@,
                        )[enc[j]] == wrd[j],
                    forall|tb: int|
                        a < tb < b ==> (pairs@[a as int]).1 != (#[trigger] pairs@[tb]).1,
                decreases m - b,
            {
                if pairs[a].1 == pairs[b].1 {
                    proof {
                        let ta = a as int;
                        let tb = b as int;
                        let len0 = pairs0.len() as int;
                        assert(pairs@[ta].0 != pairs@[tb].0);
                        assert(!can_extend(wrd, enc, m0)) by {
                            if can_extend(wrd, enc, m0) {
                                if tb < len0 {
                                    // Two original entries sharing a value:
                                    // impossible, the mapping is injective.
                                    assert(pairs@.take(len0)[ta] == pairs0[ta]);
                                    assert(pairs@.take(len0)[tb] == pairs0[tb]);
                                    assert(false);
                                } else {
                                    lemma_token_entry(pairs@, pairs0, m0, enc, wrd, tb);
                                    let jb = choose|j: int|
                                        0 <= j < enc.len() && #[trigger] enc[j] == pairs@[tb].0
                                            && wrd[j] == pairs@[tb].1;
                                    if ta < len0 {
                                        // An original assignment shares the
                                        // value of a token position under a
                                        // different encrypted byte.
                                        assert(pairs@.take(len0)[ta] == pairs0[ta]);
                                        crate::mapping::lemma_map_of_index(pairs0, ta);
                                        assert(m0.contains_key(pairs@[ta].0));
                                        assert(m0[pairs@[ta].0] == wrd[jb]);
                                        assert(pairs@[ta].0 == enc[jb]);
                                        assert(false);
                                    } else {
                                        // Two token positions with equal
                                        // plaintext but distinct encrypted
                                        // bytes.
                                        lemma_token_entry(pairs@, pairs0, m0, enc, wrd, ta);
                                        let ja = choose|j: int|
                                            0 <= j < enc.len() && #[trigger] enc[j] == pairs@[ta].0
                                                && wrd[j] == pairs@[ta].1;
                                        assert(wrd[ja] == wrd[jb]);
                                        assert(enc[ja] == enc[jb]);
                                        assert(false);
                                    }
                                }
                            }
                        }
                    }
                    return None;
                }
                b += 1;
            }
            a += 1;
        }
        proof {
            assert(vals_distinct(pairs@));
            crate::mapping::lemma_map_of_injective(pairs@);
            assert(can_extend(wrd, enc, m0)) by {
                let mp = map_of(pairs@);
                assert forall|ii: int, j: int|
                    #![trigger enc[ii], enc[j]]
                    0 <= ii < enc.len() && 0 <= j < enc.len() && enc[ii] == enc[j] implies wrd[ii]
                    == wrd[j] by {
                    assert(mp[enc[ii]] == wrd[ii]);
                    assert(mp[enc[j]] == wrd[j]);
                }
                assert forall|ii: int, j: int|
                    #![trigger wrd[ii], wrd[j]]
                    0 <= ii < enc.len() && 0 <= j < enc.len() && wrd[ii] == wrd[j] implies enc[ii]
                    == enc[j] by {
                    assert(mp[enc[ii]] == wrd[ii]);
                    assert(mp[enc[j]] == wrd[j]);
                    assert(mp.contains_key(enc[ii]) && mp.contains_key(enc[j]));
                }
                assert forall|ii: int, k: u8|
                    #![trigger wrd[ii], m0.contains_key(k)]
                    0 <= ii < enc.len() && m0.contains_key(k) && m0[k] == wrd[ii] implies k
                    == enc[ii] by {
                    assert(mp.contains_key(k) && mp[k] == m0[k]);
                    assert(mp[enc[ii]] == wrd[ii]);
                    assert(mp.contains_key(enc[ii]));
                }
            }
        }
        Some(Mapping::from_pairs(pairs))
    }
}

/// Every entry beyond the original mapping's prefix records one position of
/// the encrypted token.
proof fn lemma_token_entry(
    pairs: Seq<(u8, u8)>,
    pairs0: Seq<(u8, u8)>,
    m0: Map<u8, u8>,
    enc: Seq<u8>,
    wrd: Seq<u8>,
    t: int,
)
    requires
        m0 == map_of(pairs0),
        keys_distinct(pairs),
        pairs.len() >= pairs0.len(),
        pairs.take(pairs0.len() as int) == pairs0,
        forall|k: u8| #[trigger]
            map_of(pairs).contains_key(k) <==> (m0.contains_key(k) || has_byte(enc, k)),
        forall|j: int|
            0 <= j < enc.len() ==> map_of(pairs).contains_key(#[trigger] enc[j]) && map_of(
                pairs,
            )[enc[j]] == wrd[j],
        enc.len() == wrd.len(),
        pairs0.len() <= t < pairs.len(),
    ensures
        exists|j: int|
            0 <= j < enc.len() && #[trigger] enc[j] == pairs[t].0 && wrd[j] == pairs[t].1,
{
    let k = pairs[t].0;
    crate::mapping::lemma_map_of_index(pairs, t);
    assert(!m0.contains_key(k)) by {
        if m0.contains_key(k) {
            crate::mapping::lemma_map_of_contains(pairs0, k);
            let sdx = choose|sdx: int| 0 <= sdx < pairs0.len() && (#[trigger] pairs0[sdx]).0 == k;
            assert(pairs.take(pairs0.len() as int)[sdx] == pairs0[sdx]);
            assert((pairs[sdx]).0 == k);
            assert(false);
        }
    }
    assert(map_of(pairs).contains_key(k));
    assert(has_byte(enc, k));
    let j = choose|j: int| 0 <= j < enc.len() && #[trigger] enc[j] == k;
    assert(map_of(pairs)[enc[j]] == wrd[j]);
    assert(enc[j] == pairs[t].0 && wrd[j] == pairs[t].1);
}

/// The set of bytes occurring in any of the tokens.
pub open spec fn tokens_bytes(ts: Seq<Seq<u8>>) -> Set<u8> {
    Set::new(
        |b: u8|
            exists|ti: int, i: int|
                0 <= ti < ts.len() && 0 <= i < ts[ti].len() && #[trigger] ts[ti][i] == b,
    )
}

/// The word a mapping decodes a token to, when every byte of the token is
/// assigned.
pub open spec fn apply_full(m: Map<u8, u8>, t: Seq<u8>) -> Seq<u8> {
    Seq::new(t.len(), |i: int| m[t[i]])
}

/// `m` is a full solution extending the partial mapping `m0` over the tokens
/// `ts`: it is injective, it agrees with `m0`, it assigns exactly the bytes
/// of `m0` and of the tokens, and it decodes every token to a dictionary
/// word.
pub open spec fn is_completion(
    d: Seq<Seq<u8>>,
    ts: Seq<Seq<u8>>,
    m0: Map<u8, u8>,
    m: Map<u8, u8>,
) -> bool {
    &&& injective(m)
    &&& forall|k: u8| #[trigger] m0.contains_key(k) ==> m.contains_key(k) && m[k] == m0[k]
    &&& forall|k: u8| #[trigger] m.contains_key(k) <==> (m0.contains_key(k) || tokens_bytes(
        ts,
    ).contains(k))
    &&& forall|ti: int| 0 <= ti < ts.len() ==> dict_contains(d, apply_full(m, #[trigger] ts[ti]))
}

/// Some mapping in the list denotes `m`.
pub open spec fn has_mapping(ms: Seq<Mapping>, m: Map<u8, u8>) -> bool {
    exists|i: int| 0 <= i < ms.len() && (#[trigger] ms[i])@ == m
}

/// The mapping obtained by decoding token `enc` as `wrd` on top of `m0`:
/// existing assignments win, and each newly assigned byte takes the plaintext
/// of its first occurrence in the token.
pub open spec fn extended_map(m0: Map<u8, u8>, enc: Seq<u8>, wrd: Seq<u8>) -> Map<u8, u8> {
    Map::new(
        |k: u8| m0.contains_key(k) || has_byte(enc, k),
        |k: u8|
            if m0.contains_key(k) {
                m0[k]
            } else {
                wrd[first_index(enc, k)]
            },
    )
}

/// One branch of the search: candidate `cj` extends the mapping and the
/// recursion on the remaining tokens yields `m`.
pub open spec fn branch_yields(
    d: Seq<Seq<u8>>,
    cands: Seq<Vec<u8>>,
    token: Seq<u8>,
    m0: Map<u8, u8>,
    rest: Seq<Seq<u8>>,
    cj: int,
    m: Map<u8, u8>,
) -> bool {
    &&& 0 <= cj < cands.len()
    &&& can_extend(cands[cj]@, token, m0)
    &&& is_completion(d, rest, extended_map(m0, token, cands[cj]@), m)
}

/// Concatenation holds a mapping exactly when one part does.
proof fn lemma_has_mapping_append(s1: Seq<Mapping>, s2: Seq<Mapping>, m: Map<u8, u8>)
    ensures
        has_mapping(s1 + s2, m) <==> (has_mapping(s1, m) || has_mapping(s2, m)),
{
    if has_mapping(s1 + s2, m) {
        let i = choose|i: int| 0 <= i < (s1 + s2).len() && (#[trigger] (s1 + s2)[i])@ == m;
        if i < s1.len() {
            assert(s1[i]@ == m);
        } else {
            assert(s2[i - s1.len()]@ == m);
        }
    }
    if has_mapping(s1, m) {
        let i = choose|i: int| 0 <= i < s1.len() && (#[trigger] s1[i])@ == m;
        assert((s1 + s2)[i]@ == m);
    }
    if has_mapping(s2, m) {
        let i = choose|i: int| 0 <= i < s2.len() && (#[trigger] s2[i])@ == m;
        assert((s1 + s2)[s1.len() + i]@ == m);
    }
}

/// Removing the token at `p` splits the token bytes into that token's bytes
/// and the rest's.
proof fn lemma_tokens_bytes_split(full: Seq<Seq<u8>>, rest: Seq<Seq<u8>>, p: int)
    requires
        0 <= p < full.len(),
        rest.len() == full.len() - 1,
        forall|j: int|
            0 <= j < rest.len() ==> #[trigger] rest[j] == full[
                if j < p {
                    j
                } else {
                    j + 1
                }
            ],
    ensures
        forall|k: u8| #[trigger]
            tokens_bytes(full).contains(k) <==> (has_byte(full[p], k) || tokens_bytes(
                rest,
            ).contains(k)),
{
    assert forall|k: u8| #[trigger]
        tokens_bytes(full).contains(k) <==> (has_byte(full[p], k) || tokens_bytes(rest).contains(
            k,
        )) by {
        if tokens_bytes(full).contains(k) {
            let (ti, i) = choose|ti: int, i: int|
                0 <= ti < full.len() && 0 <= i < full[ti].len() && #[trigger] full[ti][i] == k;
            if ti == p {
                assert(has_byte(full[p], k));
            } else {
                let tj = if ti < p {
                    ti
                } else {
                    ti - 1
                };
                assert(rest[tj] == full[ti]);
                assert(rest[tj][i] == k);
                assert(tokens_bytes(rest).contains(k));
            }
        }
        if has_byte(full[p], k) {
            let i = choose|i: int| 0 <= i < full[p].len() && #[trigger] full[p][i] == k;
            assert(full[p][i] == k);
            assert(tokens_bytes(full).contains(k));
        }
        if tokens_bytes(rest).contains(k) {
            let (tj, i) = choose|tj: int, i: int|
                0 <= tj < rest.len() && 0 <= i < rest[tj].len() && #[trigger] rest[tj][i] == k;
            let ti = if tj < p {
                tj
            } else {
                tj + 1
            };
            assert(rest[tj] == full[ti]);
            assert(full[ti][i] == k);
            assert(tokens_bytes(full).contains(k));
        }
    }
}

/// What the extension of `m0` by decoding `enc` as `wrd` assigns.
proof fn lemma_extended_map_props(m0: Map<u8, u8>, enc: Seq<u8>, wrd: Seq<u8>)
    requires
        wrd.len() == enc.len(),
        can_extend(wrd, enc, m0),
    ensures
        forall|k: u8| #[trigger]
            extended_map(m0, enc, wrd).contains_key(k) <==> (m0.contains_key(k) || has_byte(
                enc,
                k,
            )),
        forall|k: u8| #[trigger]
            m0.contains_key(k) ==> extended_map(m0, enc, wrd)[k] == m0[k],
        forall|i: int|
            0 <= i < enc.len() ==> extended_map(m0, enc, wrd).contains_key(#[trigger] enc[i])
                && extended_map(m0, enc, wrd)[enc[i]] == wrd[i],
{
    let ext = extended_map(m0, enc, wrd);
    assert forall|i: int| 0 <= i < enc.len() implies ext.contains_key(#[trigger] enc[i])
        && ext[enc[i]] == wrd[i] by {
        assert(has_byte(enc, enc[i]));
        if !m0.contains_key(enc[i]) {
            lemma_first_index_at(enc, i);
            let f = first_index(enc, enc[i]);
            assert(enc[f] == enc[i]);
            assert(wrd[f] == wrd[i]);
        }
    }
}

/// The union of the branch results at a chosen token is exactly the set of
/// completions of the current mapping over all tokens.
proof fn lemma_branches_exact(
    d: Seq<Seq<u8>>,
    full: Seq<Seq<u8>>,
    rest: Seq<Seq<u8>>,
    p: int,
    cands: Seq<Vec<u8>>,
    m0: Map<u8, u8>,
    m: Map<u8, u8>,
)
    requires
        injective(m0),
        0 <= p < full.len(),
        rest.len() == full.len() - 1,
        forall|j: int|
            0 <= j < rest.len() ==> #[trigger] rest[j] == full[
                if j < p {
                    j
                } else {
                    j + 1
                }
            ],
        forall|x: Seq<u8>| #[trigger] word_in(cands, x) <==> candidate_ok(d, m0, full[p], x),
    ensures
        (exists|cj: int| #[trigger] branch_yields(d, cands, full[p], m0, rest, cj, m))
            <==> is_completion(d, full, m0, m),
{
    let token = full[p];
    lemma_tokens_bytes_split(full, rest, p);
    if exists|cj: int| #[trigger] branch_yields(d, cands, full[p], m0, rest, cj, m) {
        // Soundness: a branch result is a completion over all tokens.
        let cj = choose|cj: int| #[trigger] branch_yields(d, cands, full[p], m0, rest, cj, m);
        let w = cands[cj]@;
        let ext = extended_map(m0, token, w);
        assert(word_in(cands, w));
        assert(candidate_ok(d, m0, token, w));
        assert(w.len() == token.len()) by {
            assert(pattern_of(w).len() == w.len());
            assert(pattern_of(token).len() == token.len());
        }
        lemma_extended_map_props(m0, token, w);
        assert(is_completion(d, full, m0, m)) by {
            assert forall|k: u8| #[trigger] m0.contains_key(k) implies m.contains_key(k) && m[k]
                == m0[k] by {
                assert(ext.contains_key(k) && ext[k] == m0[k]);
            }
            assert forall|k: u8| #[trigger]
                m.contains_key(k) <==> (m0.contains_key(k) || tokens_bytes(full).contains(
                    k,
                )) by {
                assert(m.contains_key(k) <==> (ext.contains_key(k) || tokens_bytes(rest).contains(
                    k,
                )));
            }
            assert forall|ti: int| 0 <= ti < full.len() implies dict_contains(
                d,
                apply_full(m, #[trigger] full[ti]),
            ) by {
                if ti == p {
                    assert(apply_full(m, token) =~= w) by {
                        assert forall|i: int| 0 <= i < token.len() implies m[token[i]]
                            == w[i] by {
                            assert(ext.contains_key(token[i]) && ext[token[i]] == w[i]);
                            assert(m.contains_key(token[i]) && m[token[i]] == ext[token[i]]);
                        }
                    }
                    assert(dict_contains(d, w));
                } else {
                    let tj = if ti < p {
                        ti
                    } else {
                        ti - 1
                    };
                    assert(rest[tj] == full[ti]);
                    assert(dict_contains(d, apply_full(m, rest[tj])));
                }
            }
        }
    }
    if is_completion(d, full, m0, m) {
        // Completeness: the decoded token names a candidate whose branch
        // yields this very completion.
        assert forall|i: int| 0 <= i < token.len() implies m.contains_key(
            #[trigger] token[i],
        ) by {
            assert(token[i] == full[p][i]);
            assert(tokens_bytes(full).contains(token[i]));
        }
        let w = apply_full(m, token);
        assert(dict_contains(d, w));
        assert(pattern_of(w) == pattern_of(token)) by {
            assert(w.len() == token.len());
            assert forall|i: int, j: int|
                0 <= i < token.len() && 0 <= j < token.len() implies ((token[i] == token[j]) <==> (
            w[i] == w[j])) by {
                assert(w[i] == m[token[i]]);
                assert(w[j] == m[token[j]]);
            }
            lemma_pattern_equiv(token, w);
        }
        assert(candidate_ok(d, m0, token, w)) by {
            assert forall|i: int|
                0 <= i < token.len() && m0.contains_key(#[trigger] token[i]) implies w[i]
                == m0[token[i]] by {
                assert(w[i] == m[token[i]]);
            }
        }
        assert(word_in(cands, w));
        let cj = choose|cj: int| 0 <= cj < cands.len() && (#[trigger] cands[cj])@ == w;
        assert(can_extend(w, token, m0)) by {
            assert forall|i: int, j: int|
                #![trigger token[i], token[j]]
                0 <= i < token.len() && 0 <= j < token.len() && token[i] == token[j] implies w[i]
                == w[j] by {
                assert(w[i] == m[token[i]]);
                assert(w[j] == m[token[j]]);
            }
            assert forall|i: int, j: int|
                #![trigger w[i], w[j]]
                0 <= i < token.len() && 0 <= j < token.len() && w[i] == w[j] implies token[i]
                == token[j] by {
                assert(w[i] == m[token[i]]);
                assert(w[j] == m[token[j]]);
                assert(m.contains_key(token[i]) && m.contains_key(token[j]));
            }
            assert forall|i: int, k: u8|
                #![trigger w[i], m0.contains_key(k)]
                0 <= i < token.len() && m0.contains_key(k) && m0[k] == w[i] implies k
                == token[i] by {
                assert(m.contains_key(k) && m[k] == m0[k]);
                assert(w[i] == m[token[i]]);
                assert(m.contains_key(token[i]));
            }
        }
        let ext = extended_map(m0, token, w);
        lemma_extended_map_props(m0, token, w);
        assert(is_completion(d, rest, ext, m)) by {
            assert forall|k: u8| #[trigger] ext.contains_key(k) implies m.contains_key(k) && m[k]
                == ext[k] by {
                if m0.contains_key(k) {
                    assert(ext[k] == m0[k]);
                } else {
                    assert(has_byte(token, k));
                    lemma_first_from(token, k, 0);
                    let f = first_index(token, k);
                    assert(token[f] == k);
                    assert(ext[token[f]] == w[f]);
                    assert(tokens_bytes(full).contains(k)) by {
                        assert(full[p][f] == k);
                    }
                    assert(m[token[f]] == w[f]) by {
                        assert(w[f] == m[token[f]]);
                    }
                }
            }
            assert forall|k: u8| #[trigger]
                m.contains_key(k) <==> (ext.contains_key(k) || tokens_bytes(rest).contains(
                    k,
                )) by {
                assert(m.contains_key(k) <==> (m0.contains_key(k) || tokens_bytes(full).contains(
                    k,
                )));
                if has_byte(token, k) {
                    let i = choose|i: int| 0 <= i < token.len() && #[trigger] token[i] == k;
                    assert(full[p][i] == k);
                    assert(tokens_bytes(full).contains(k));
                }
            }
            assert forall|tj: int| 0 <= tj < rest.len() implies dict_contains(
                d,
                apply_full(m, #[trigger] rest[tj]),
            ) by {
                let ti = if tj < p {
                    tj
                } else {
                    tj + 1
                };
                assert(rest[tj] == full[ti]);
                assert(dict_contains(d, apply_full(m, full[ti])));
            }
        }
        assert(branch_yields(d, cands, full[p], m0, rest, cj, m));
    }
}

impl Solver {
    /// Backtracking search: resolve the remaining encrypted tokens, always
    /// branching on the token with the fewest live candidates, and return
    /// every mapping that decodes all tokens to dictionary words. The result
    /// holds exactly the completions of `mapping` over the tokens: the search
    /// is exhaustive and each returned mapping is injective.
    pub fn guess(&self, mapping: Mapping, encrypted_words: &Vec<Vec<u8>>) -> (r: Vec<Mapping>)
        ensures
            forall|m: Map<u8, u8>|
                #![trigger has_mapping(r@, m)]
                has_mapping(r@, m) <==> is_completion(
                    self.dict(),
                    encrypted_words@.map_values(|v: Vec<u8>| v@),
                    mapping@,
                    m,
                ),
        decreases encrypted_words@.len(),
    {
        let ghost d = self.dict();
        let ghost full = encrypted_words@.map_values(|v: Vec<u8>| v@);
        let ghost m0 = mapping@;
        proof {
            use_type_invariant(&mapping);
            crate::mapping::Mapping::lemma_injective_of_inv(mapping);
        }
        let k = encrypted_words.len();
        if k == 0 {
            let mut out: Vec<Mapping> = Vec::new();
            out.push(mapping);
            proof {
                assert forall|m: Map<u8, u8>| has_mapping(out@, m) <==> is_completion(
                    d,
                    full,
                    m0,
                    m,
                ) by {
                    assert(full.len() == 0);
                    assert forall|b: u8| !#[trigger] tokens_bytes(full).contains(b) by {
                        if tokens_bytes(full).contains(b) {
                            let (ti, i) = choose|ti: int, i: int|
                                0 <= ti < full.len() && 0 <= i < full[ti].len()
                                    && #[trigger] full[ti][i] == b;
                        }
                    }
                    if has_mapping(out@, m) {
                        let i = choose|i: int| 0 <= i < out@.len() && (#[trigger] out@[i])@ == m;
                        assert(m == m0);
                        assert(is_completion(d, full, m0, m));
                    }
                    if is_completion(d, full, m0, m) {
                        assert(m =~= m0);
                        assert(out@[0]@ == m);
                    }
                }
            }
            return out;
        }
        // Most-constrained-first: find the token with the fewest candidates.
        let mut best_idx: usize = 0;
        let mut best_cands = self.find_candidate_matches(&encrypted_words[0], &mapping);
        let mut ti: usize = 1;
        while ti < k
            invariant
                k == encrypted_words@.len(),
                1 <= ti <= k,
                best_idx < k,
                d == self.dict(),
                m0 == mapping@,
                words_distinct(best_cands@),
                forall|x: Seq<u8>| #[trigger]
                    word_in(best_cands@, x) <==> candidate_ok(
                        d,
                        m0,
                        encrypted_words@[best_idx as int]@,
                        x,
                    ),
            decreases k - ti,
        {
            let c = self.find_candidate_matches(&encrypted_words[ti], &mapping);
            if c.len() < best_cands.len() {
                best_idx = ti;
                best_cands = c;
            }
            ti += 1;
        }
        let ghost token = encrypted_words@[best_idx as int]@;
        proof {
            assert(token == full[best_idx as int]);
        }
        // The other tokens, in order.
        let mut rest: Vec<Vec<u8>> = Vec::new();
        let mut tj: usize = 0;
        while tj < k
            invariant
                k == encrypted_words@.len(),
                tj <= k,
                best_idx < k,
                rest@.len() == (if tj <= best_idx {
                    tj as int
                } else {
                    tj - 1
                }),
                forall|j: int|
                    0 <= j < rest@.len() ==> (#[trigger] rest@[j])@ == encrypted_words@[
                        if j < best_idx as int {
                            j
                        } else {
                            j + 1
                        }
                    ]@,
            decreases k - tj,
        {
            if tj != best_idx {
                rest.push(copy_word(&encrypted_words[tj]));
            }
            tj += 1;
        }
        let ghost rest_ts = rest@.map_values(|v: Vec<u8>| v@);
        proof {
            assert(rest_ts.len() == full.len() - 1);
            assert forall|j: int| 0 <= j < rest_ts.len() implies #[trigger] rest_ts[j] == full[
                if j < best_idx as int {
                    j
                } else {
                    j + 1
                }
            ] by {
                assert(rest_ts[j] == rest@[j]@);
            }
        }
        // Branch over the candidates of the chosen token.
        let mut out: Vec<Mapping> = Vec::new();
        let nc = best_cands.len();
        let mut ci: usize = 0;
        while ci < nc
            invariant
                k == encrypted_words@.len(),
                nc == best_cands@.len(),
                ci <= nc,
                best_idx < k,
                d == self.dict(),
                m0 == mapping@,
                full == encrypted_words@.map_values(|v: Vec<u8>| v@),
                token == full[best_idx as int],
                rest_ts == rest@.map_values(|v: Vec<u8>| v@),
                rest_ts.len() == full.len() - 1,
                forall|j: int|
                    0 <= j < rest_ts.len() ==> #[trigger] rest_ts[j] == full[
                        if j < best_idx as int {
                            j
                        } else {
                            j + 1
                        }
                    ],
                words_distinct(best_cands@),
                forall|x: Seq<u8>| #[trigger]
                    word_in(best_cands@, x) <==> candidate_ok(d, m0, token, x),
                forall|m: Map<u8, u8>|
                    #![trigger has_mapping(out@, m)]
                    has_mapping(out@, m) <==> exists|cj: int|
                        cj < ci && #[trigger] branch_yields(d, best_cands@, token, m0, rest_ts, cj, m),
            decreases nc - ci,
        {
            let cand = &best_cands[ci];
            proof {
                assert(word_in(best_cands@, cand@)) by {
                    assert((best_cands@[ci as int])@ == cand@);
                }
                assert(candidate_ok(d, m0, token, cand@));
                assert(cand@.len() == token.len()) by {
                    assert(pattern_of(cand@).len() == cand@.len());
                    assert(pattern_of(token).len() == token.len());
                }
            }
            let ghost out0 = out@;
            let extension = self.try_extend_mapping(cand, &encrypted_words[best_idx], &mapping);
            match extension {
                Some(m1) => {
                    let ghost ext = extended_map(m0, token, cand@);
                    proof {
                        lemma_extended_map_props(m0, token, cand@);
                        assert(m1@ =~= ext) by {
                            assert forall|key: u8| #[trigger]
                                m1@.contains_key(key) <==> ext.contains_key(key) by {
                                assert(m1@.contains_key(key) <==> (m0.contains_key(key) || has_byte(
                                    token,
                                    key,
                                )));
                            }
                            assert forall|key: u8|
                                ext.contains_key(key) implies #[trigger] m1@[key] == ext[key] by {
                                if m0.contains_key(key) {
                                    assert(m1@[key] == m0[key]);
                                } else {
                                    assert(has_byte(token, key));
                                    lemma_first_from(token, key, 0);
                                    let f = first_index(token, key);
                                    assert(token[f] == key);
                                    assert(m1@[token[f]] == cand@[f]);
                                    assert(ext[token[f]] == cand@[f]);
                                }
                            }
                        }
                    }
                    let mut sub = self.guess(m1, &rest);
                    let ghost subv = sub@;
                    out.append(&mut sub);
                    proof {
                        assert(out@ == out0 + subv);
                        assert forall|m: Map<u8, u8>| #[trigger]
                            has_mapping(out@, m) <==> exists|cj: int|
                            cj < ci as int + 1 && #[trigger] branch_yields(
                                d,
                                best_cands@,
                                token,
                                m0,
                                rest_ts,
                                cj,
                                m,
                            ) by {
                            lemma_has_mapping_append(out0, subv, m);
                            assert(has_mapping(subv, m) <==> is_completion(d, rest_ts, m1@, m));
                            if has_mapping(subv, m) {
                                assert(branch_yields(
                                    d,
                                    best_cands@,
                                    token,
                                    m0,
                                    rest_ts,
                                    ci as int,
                                    m,
                                ));
                            }
                            if exists|cj: int|
                                cj < ci as int + 1 && #[trigger] branch_yields(
                                    d,
                                    best_cands@,
                                    token,
                                    m0,
                                    rest_ts,
                                    cj,
                                    m,
                                ) {
                                let cj = choose|cj: int|
                                    cj < ci as int + 1 && #[trigger] branch_yields(
                                        d,
                                        best_cands@,
                                        token,
                                        m0,
                                        rest_ts,
                                        cj,
                                        m,
                                    );
                                if cj == ci as int {
                                    assert(is_completion(d, rest_ts, ext, m));
                                    assert(has_mapping(subv, m));
                                }
                            }
                        }
                    }
                },
                None => {
                    proof {
                        assert forall|m: Map<u8, u8>| #[trigger]
                            has_mapping(out@, m) <==> exists|cj: int|
                            cj < ci as int + 1 && #[trigger] branch_yields(
                                d,
                                best_cands@,
                                token,
                                m0,
                                rest_ts,
                                cj,
                                m,
                            ) by {
                            if exists|cj: int|
                                cj < ci as int + 1 && #[trigger] branch_yields(
                                    d,
                                    best_cands@,
                                    token,
                                    m0,
                                    rest_ts,
                                    cj,
                                    m,
                                ) {
                                let cj = choose|cj: int|
                                    cj < ci as int + 1 && #[trigger] branch_yields(
                                        d,
                                        best_cands@,
                                        token,
                                        m0,
                                        rest_ts,
                                        cj,
                                        m,
                                    );
                                if cj == ci as int {
                                    assert(can_extend(cand@, token, m0));
                                    assert(false);
                                }
                            }
                        }
                    }
                },
            }
            ci += 1;
        }
        proof {
            assert forall|m: Map<u8, u8>|
                #![trigger has_mapping(out@, m)]
                #![trigger is_completion(d, full, m0, m)]
                has_mapping(out@, m) <==> is_completion(d, full, m0, m) by {
                lemma_branches_exact(d, full, rest_ts, best_idx as int, best_cands@, m0, m);
                if has_mapping(out@, m) {
                    let cj = choose|cj: int|
                        cj < nc as int && #[trigger] branch_yields(
                            d,
                            best_cands@,
                            token,
                            m0,
                            rest_ts,
                            cj,
                            m,
                        );
                    assert(branch_yields(d, best_cands@, full[best_idx as int], m0, rest_ts, cj, m));
                }
                if is_completion(d, full, m0, m) {
                    let cj = choose|cj: int| #[trigger]
                        branch_yields(d, best_cands@, full[best_idx as int], m0, rest_ts, cj, m);
                    assert(cj < nc as int);
                    assert(branch_yields(d, best_cands@, token, m0, rest_ts, cj, m));
                }
            }
        }
        out
    }
}

/// Some element of `ts` equals token `t`.
pub open spec fn token_in(ts: Seq<Seq<u8>>, t: Seq<u8>) -> bool {
    exists|i: int| 0 <= i < ts.len() && #[trigger] ts[i] == t
}

/// Membership among views matches membership among tokens.
proof fn lemma_word_in_views(ws: Seq<Vec<u8>>, x: Seq<u8>)
    ensures
        word_in(ws, x) <==> token_in(ws.map_values(|v: Vec<u8>| v@), x),
{
    let ts = ws.map_values(|v: Vec<u8>| v@);
    if word_in(ws, x) {
        let k = choose|k: int| 0 <= k < ws.len() && (#[trigger] ws[k])@ == x;
        assert(ts[k] == x);
    }
    if token_in(ts, x) {
        let k = choose|k: int| 0 <= k < ts.len() && #[trigger] ts[k] == x;
        assert((ws[k])@ == x);
    }
}

/// The rendering of a phrase under a mapping: every assigned byte is
/// substituted, every other byte passes through unchanged.
pub open spec fn render_spec(m: Map<u8, u8>, p: Seq<u8>) -> Seq<u8> {
    Seq::new(
        p.len(),
        |i: int|
            if m.contains_key(p[i]) {
                m[p[i]]
            } else {
                p[i]
            },
    )
}

/// `m` solves phrase `p` against dictionary `d`: it is injective, assigns
/// exactly the bytes of the phrase's tokens, and decodes every token to a
/// dictionary word.
pub open spec fn is_solution(d: Seq<Seq<u8>>, p: Seq<u8>, m: Map<u8, u8>) -> bool {
    &&& injective(m)
    &&& forall|k: u8| #[trigger] m.contains_key(k) <==> tokens_bytes(tokens_of(p)).contains(k)
    &&& forall|ti: int|
        0 <= ti < tokens_of(p).len() ==> dict_contains(
            d,
            apply_full(m, #[trigger] tokens_of(p)[ti]),
        )
}

/// `s` is a decoding of phrase `p`: the rendering of some solution.
pub open spec fn is_decoding(d: Seq<Seq<u8>>, p: Seq<u8>, s: Seq<u8>) -> bool {
    exists|m: Map<u8, u8>| #[trigger] is_solution(d, p, m) && s == render_spec(m, p)
}

/// Some phrase in the list views to `s`.
pub open spec fn phrase_in(rs: Seq<Phrase>, s: Seq<u8>) -> bool {
    exists|i: int| 0 <= i < rs.len() && (#[trigger] rs[i])@ == s
}

/// Over token lists with the same members, the completions of the empty
/// mapping are exactly the solutions of the phrase.
proof fn lemma_solution_completion(d: Seq<Seq<u8>>, p: Seq<u8>, ts: Seq<Seq<u8>>, m: Map<u8, u8>)
    requires
        forall|t: Seq<u8>| #[trigger] token_in(ts, t) <==> token_in(tokens_of(p), t),
    ensures
        is_completion(d, ts, Map::<u8, u8>::empty(), m) <==> is_solution(d, p, m),
{
    let pts = tokens_of(p);
    assert forall|k: u8| #[trigger]
        tokens_bytes(ts).contains(k) <==> tokens_bytes(pts).contains(k) by {
        if tokens_bytes(ts).contains(k) {
            let (ti, i) = choose|ti: int, i: int|
                0 <= ti < ts.len() && 0 <= i < ts[ti].len() && #[trigger] ts[ti][i] == k;
            assert(token_in(ts, ts[ti]));
            let tj = choose|tj: int| 0 <= tj < pts.len() && #[trigger] pts[tj] == ts[ti];
            assert(pts[tj][i] == k);
            assert(tokens_bytes(pts).contains(k));
        }
        if tokens_bytes(pts).contains(k) {
            let (ti, i) = choose|ti: int, i: int|
                0 <= ti < pts.len() && 0 <= i < pts[ti].len() && #[trigger] pts[ti][i] == k;
            assert(token_in(pts, pts[ti]));
            assert(token_in(ts, pts[ti]));
            let tj = choose|tj: int| 0 <= tj < ts.len() && #[trigger] ts[tj] == pts[ti];
            assert(ts[tj][i] == k);
            assert(tokens_bytes(ts).contains(k));
        }
    }
    if is_completion(d, ts, Map::<u8, u8>::empty(), m) {
        assert forall|ti: int| 0 <= ti < pts.len() implies dict_contains(
            d,
            apply_full(m, #[trigger] pts[ti]),
        ) by {
            assert(token_in(pts, pts[ti]));
            assert(token_in(ts, pts[ti]));
            let tj = choose|tj: int| 0 <= tj < ts.len() && #[trigger] ts[tj] == pts[ti];
            assert(dict_contains(d, apply_full(m, ts[tj])));
        }
    }
    if is_solution(d, p, m) {
        assert forall|ti: int| 0 <= ti < ts.len() implies dict_contains(
            d,
            apply_full(m, #[trigger] ts[ti]),
        ) by {
            assert(token_in(ts, ts[ti]));
            let tj = choose|tj: int| 0 <= tj < pts.len() && #[trigger] pts[tj] == ts[ti];
            assert(dict_contains(d, apply_full(m, pts[tj])));
        }
    }
}

/// A solution over a lowercase-ASCII dictionary assigns only lowercase ASCII
/// bytes.
proof fn lemma_solution_values_lower(d: Seq<Seq<u8>>, p: Seq<u8>, m: Map<u8, u8>)
    requires
        dict_lower(d),
        is_solution(d, p, m),
    ensures
        forall|k: u8| #[trigger] m.contains_key(k) ==> m[k] < 128 && !(65 <= m[k] <= 90),
{
    let pts = tokens_of(p);
    assert forall|k: u8| #[trigger] m.contains_key(k) implies m[k] < 128 && !(65 <= m[k]
        <= 90) by {
        assert(tokens_bytes(pts).contains(k));
        let (ti, i) = choose|ti: int, i: int|
            0 <= ti < pts.len() && 0 <= i < pts[ti].len() && #[trigger] pts[ti][i] == k;
        let w = apply_full(m, pts[ti]);
        assert(dict_contains(d, w));
        assert(lower_ascii(w));
        assert(w[i] == m[k]);
    }
}

/// The distinct tokens of a list, first occurrences in order.
fn dedup_tokens(toks: &Vec<Vec<u8>>) -> (r: Vec<Vec<u8>>)
    ensures
        words_distinct(r@),
        forall|x: Seq<u8>| #[trigger] word_in(r@, x) <==> word_in(toks@, x),
{
    let n = toks.len();
    let mut r: Vec<Vec<u8>> = Vec::new();
    let mut i: usize = 0;
    while i < n
        invariant
            n == toks@.len(),
            i <= n,
            words_distinct(r@),
            forall|x: Seq<u8>| #[trigger] word_in(r@, x) <==> word_in(toks@.take(i as int), x),
        decreases n - i,
    {
        let ghost r0 = r@;
        let ghost pre = toks@.take(i as int);
        let ghost pre1 = toks@.take(i as int + 1);
        let fresh = !word_in_vec(&r, &toks[i]);
        if fresh {
            let w = copy_word(&toks[i]);
            r.push(w);
            proof {
                assert forall|a: int, b: int| 0 <= a < b < r@.len() implies (#[trigger] r@[a])@
                    != (#[trigger] r@[b])@ by {
                    if b < r@.len() - 1 {
                        assert(r0[a] == r@[a] && r0[b] == r@[b]);
                    } else {
                        assert(r0[a] == r@[a]);
                        if r@[a]@ == toks@[i as int]@ {
                            assert(word_in(r0, toks@[i as int]@));
                        }
                    }
                }
            }
        }
        proof {
            assert forall|x: Seq<u8>| #[trigger]
                word_in(r@, x) <==> word_in(pre1, x) by {
                if word_in(r@, x) {
                    let k = choose|k: int| 0 <= k < r@.len() && (#[trigger] r@[k])@ == x;
                    if k < r0.len() {
                        assert(r0[k]@ == x);
                        assert(word_in(r0, x));
                        let k2 = choose|k2: int| 0 <= k2 < pre.len() && (#[trigger] pre[k2])@ == x;
                        assert(pre1[k2]@ == x);
                    } else {
                        assert(x == toks@[i as int]@);
                        assert(pre1[i as int]@ == x);
                    }
                }
                if word_in(pre1, x) {
                    let k = choose|k: int| 0 <= k < pre1.len() && (#[trigger] pre1[k])@ == x;
                    if k < i as int {
                        assert(pre[k]@ == x);
                        assert(word_in(pre, x));
                        assert(word_in(r0, x));
                        let k2 = choose|k2: int| 0 <= k2 < r0.len() && (#[trigger] r0[k2])@ == x;
                        assert(r@[k2]@ == x);
                    } else {
                        assert(x == toks@[i as int]@);
                        if fresh {
                            assert(r@[r@.len() - 1]@ == x);
                        } else {
                            assert(word_in(r0, toks@[i as int]@));
                            let k2 = choose|k2: int|
                                0 <= k2 < r0.len() && (#[trigger] r0[k2])@ == x;
                            assert(r@[k2]@ == x);
                        }
                    }
                }
            }
        }
        i += 1;
    }
    proof {
        assert(toks@.take(n as int) =~= toks@);
    }
    r
}

/// Apply a completed mapping to the whole phrase: substitute every assigned
/// byte, pass every other byte (whitespace, unassigned letters) through
/// unchanged. Pure and total.
pub fn render(mapping: &Mapping, phrase: &Phrase) -> (r: Vec<u8>)
    ensures
        r@ == render_spec(mapping@, phrase@),
{
    let b = phrase.as_bytes();
    let n = b.len();
    let mut r: Vec<u8> = Vec::new();
    let mut i: usize = 0;
    while i < n
        invariant
            n == b@.len(),
            b@ == phrase@,
            i <= n,
            r@.len() == i,
            forall|j: int| 0 <= j < i ==> r@[j] == render_spec(mapping@, phrase@)[j],
        decreases n - i,
    {
        let u = b[i];
        match mapping.get(u) {
            Some(v) => r.push(v),
            None => r.push(u),
        }
        i += 1;
    }
    proof {
        assert(r@ =~= render_spec(mapping@, phrase@));
    }
    r
}

impl Solver {
    /// Solve a phrase: split it into tokens, search for every injective
    /// mapping under which each distinct token decodes to a dictionary word,
    /// and render each complete mapping over the whole phrase. The result
    /// holds exactly the decodings of the phrase; it may be empty, and its
    /// order is unspecified.
    pub fn solve(&self, phrase: &Phrase) -> (r: Vec<Phrase>)
        ensures
            forall|s: Seq<u8>| #[trigger] phrase_in(r@, s) <==> is_decoding(self.dict(), phrase@, s),
            forall|i: int| 0 <= i < r@.len() ==> (#[trigger] r@[i])@.len() == phrase@.len(),
    {
        let ghost d = self.dict();
        let ghost p = phrase@;
        proof {
            use_type_invariant(&*self);
        }
        let toks = phrase.tokens();
        let uniq = dedup_tokens(&toks);
        let ghost uniq_ts = uniq@.map_values(|v: Vec<u8>| v@);
        proof {
            assert forall|t: Seq<u8>| #[trigger]
                token_in(uniq_ts, t) <==> token_in(tokens_of(p), t) by {
                lemma_word_in_views(uniq@, t);
                lemma_word_in_views(toks@, t);
                assert(word_in(uniq@, t) <==> word_in(toks@, t));
            }
        }
        let empty = Mapping::empty();
        let ghost e = empty@;
        let mappings = self.guess(empty, &uniq);
        let ghost ms = mappings@;
        let nm = mappings.len();
        let mut out: Vec<Phrase> = Vec::new();
        let mut mi: usize = 0;
        while mi < nm
            invariant
                nm == ms.len(),
                mi <= nm,
                ms == mappings@,
                d == self.dict(),
                p == phrase@,
                e == Map::<u8, u8>::empty(),
                dict_lower(d),
                lower_ascii(p),
                forall|m: Map<u8, u8>|
                    #![trigger has_mapping(ms, m)]
                    has_mapping(ms, m) <==> is_completion(d, uniq_ts, e, m),
                forall|t: Seq<u8>| #[trigger] token_in(uniq_ts, t) <==> token_in(tokens_of(p), t),
                forall|i: int| 0 <= i < out@.len() ==> (#[trigger] out@[i])@.len() == p.len(),
                forall|s: Seq<u8>| #[trigger]
                    phrase_in(out@, s) <==> exists|j: int|
                        0 <= j < mi && s == render_spec((#[trigger] ms[j])@, p),
            decreases nm - mi,
        {
            let ghost out0 = out@;
            let m = &mappings[mi];
            proof {
                assert(has_mapping(ms, m@)) by {
                    assert((ms[mi as int])@ == m@);
                }
                lemma_solution_completion(d, p, uniq_ts, m@);
                assert(is_solution(d, p, m@));
                lemma_solution_values_lower(d, p, m@);
                assert(lower_ascii(render_spec(m@, p))) by {
                    assert forall|j: int|
                        0 <= j < render_spec(m@, p).len() implies render_spec(m@, p)[j] < 128 && !(
                    65 <= #[trigger] render_spec(m@, p)[j] <= 90) by {
                        if !m@.contains_key(p[j]) {
                            assert(render_spec(m@, p)[j] == p[j]);
                        }
                    }
                }
            }
            let bytes = render(m, phrase);
            let decoded = Phrase::from_bytes(bytes);
            out.push(decoded);
            proof {
                assert forall|s: Seq<u8>| #[trigger]
                    phrase_in(out@, s) <==> exists|j: int|
                    0 <= j < mi as int + 1 && s == render_spec((#[trigger] ms[j])@, p) by {
                    if phrase_in(out@, s) {
                        let k = choose|k: int| 0 <= k < out@.len() && (#[trigger] out@[k])@ == s;
                        if k < out0.len() {
                            assert(out0[k]@ == s);
                            assert(phrase_in(out0, s));
                        } else {
                            assert(s == render_spec((ms[mi as int])@, p));
                        }
                    }
                    if exists|j: int|
                        0 <= j < mi as int + 1 && s == render_spec((#[trigger] ms[j])@, p) {
                        let j = choose|j: int|
                            0 <= j < mi as int + 1 && s == render_spec((#[trigger] ms[j])@, p);
                        if j < mi as int {
                            assert(phrase_in(out0, s));
                            let k = choose|k: int|
                                0 <= k < out0.len() && (#[trigger] out0[k])@ == s;
                            assert(out@[k]@ == s);
                        } else {
                            assert(out@[out@.len() - 1]@ == s);
                        }
                    }
                }
            }
            mi += 1;
        }
        proof {
            assert forall|s: Seq<u8>| #[trigger]
                phrase_in(out@, s) <==> is_decoding(d, p, s) by {
                if phrase_in(out@, s) {
                    let j = choose|j: int|
                        0 <= j < nm as int && s == render_spec((#[trigger] ms[j])@, p);
                    let m = ms[j]@;
                    assert(has_mapping(ms, m)) by {
                        assert((ms[j])@ == m);
                    }
                    lemma_solution_completion(d, p, uniq_ts, m);
                    assert(is_solution(d, p, m) && s == render_spec(m, p));
                }
                if is_decoding(d, p, s) {
                    let m = choose|m: Map<u8, u8>| #[trigger]
                        is_solution(d, p, m) && s == render_spec(m, p);
                    lemma_solution_completion(d, p, uniq_ts, m);
                    assert(is_completion(d, uniq_ts, e, m));
                    assert(has_mapping(ms, m));
                    let j = choose|j: int| 0 <= j < ms.len() && (#[trigger] ms[j])@ == m;
                    assert(s == render_spec(ms[j]@, p));
                }
            }
        }
        out
    }
}

} // verus!
