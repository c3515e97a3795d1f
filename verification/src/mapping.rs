//! Mappings: partial, injective functions from encrypted-alphabet bytes to
//! decrypted-alphabet bytes, representing a candidate substitution alphabet.

use vstd::prelude::*;

verus! {

/// The keys of an association list are pairwise distinct.
pub open spec fn keys_distinct(s: Seq<(u8, u8)>) -> bool {
    forall|a: int, b: int| 0 <= a < b < s.len() ==> (#[trigger] s[a]).0 != (#[trigger] s[b]).0
}

/// The values of an association list are pairwise distinct.
pub open spec fn vals_distinct(s: Seq<(u8, u8)>) -> bool {
    forall|a: int, b: int| 0 <= a < b < s.len() ==> (#[trigger] s[a]).1 != (#[trigger] s[b]).1
}

/// The partial map described by an association list; on a duplicate key the
/// later entry wins.
pub open spec fn map_of(s: Seq<(u8, u8)>) -> Map<u8, u8>
    decreases s.len(),
{
    if s.len() == 0 {
        Map::empty()
    } else {
        map_of(s.drop_last()).insert(s.last().0, s.last().1)
    }
}

/// No two distinct keys share a value.
pub open spec fn injective(m: Map<u8, u8>) -> bool {
    forall|k1: u8, k2: u8|
        m.contains_key(k1) && m.contains_key(k2) && m[k1] == m[k2] ==> k1 == k2
}

/// A key is in the map exactly when some entry carries it.
pub proof fn lemma_map_of_contains(s: Seq<(u8, u8)>, k: u8)
    ensures
        map_of(s).contains_key(k) <==> exists|i: int| 0 <= i < s.len() && (#[trigger] s[i]).0 == k,
    decreases s.len(),
{
    if s.len() > 0 {
        lemma_map_of_contains(s.drop_last(), k);
        if map_of(s).contains_key(k) {
            if s.last().0 != k {
                let i = choose|i: int| 0 <= i < s.len() - 1 && (#[trigger] s.drop_last()[i]).0 == k;
                assert((s[i]).0 == k);
            }
        }
        if exists|i: int| 0 <= i < s.len() && (#[trigger] s[i]).0 == k {
            let i = choose|i: int| 0 <= i < s.len() && (#[trigger] s[i]).0 == k;
            if i < s.len() - 1 {
                assert((s.drop_last()[i]).0 == k);
            }
        }
    }
}

/// With distinct keys, each entry gives the value of its key.
pub proof fn lemma_map_of_index(s: Seq<(u8, u8)>, i: int)
    requires
        keys_distinct(s),
        0 <= i < s.len(),
    ensures
        map_of(s).contains_key(s[i].0),
        map_of(s)[s[i].0] == s[i].1,
    decreases s.len(),
{
    lemma_map_of_contains(s, s[i].0);
    if i < s.len() - 1 {
        assert(keys_distinct(s.drop_last())) by {
            assert forall|a: int, b: int|
                0 <= a < b < s.drop_last().len() implies (#[trigger] s.drop_last()[a]).0
                != (#[trigger] s.drop_last()[b]).0 by {
                assert(s[a] == s.drop_last()[a]);
                assert(s[b] == s.drop_last()[b]);
            }
        }
        lemma_map_of_index(s.drop_last(), i);
        assert(s.drop_last()[i] == s[i]);
        assert(s.last().0 != s[i].0);
    }
}

/// With distinct keys, every value of the map comes from some entry.
pub proof fn lemma_map_of_value_source(s: Seq<(u8, u8)>, k: u8)
    requires
        map_of(s).contains_key(k),
    ensures
        exists|i: int| 0 <= i < s.len() && (#[trigger] s[i]).0 == k && s[i].1 == map_of(s)[k],
    decreases s.len(),
{
    if s.len() > 0 {
        if s.last().0 == k {
            assert((s[s.len() - 1]).0 == k && s[s.len() - 1].1 == map_of(s)[k]);
        } else {
            lemma_map_of_contains(s, k);
            lemma_map_of_contains(s.drop_last(), k);
            lemma_map_of_value_source(s.drop_last(), k);
            let i = choose|i: int|
                0 <= i < s.drop_last().len() && (#[trigger] s.drop_last()[i]).0 == k
                    && s.drop_last()[i].1 == map_of(s.drop_last())[k];
            assert((s[i]).0 == k && s[i].1 == map_of(s)[k]);
        }
    }
}

/// With distinct keys, the described map has one key per entry.
pub proof fn lemma_map_of_len(s: Seq<(u8, u8)>)
    requires
        keys_distinct(s),
    ensures
        map_of(s).dom().finite(),
        map_of(s).dom().len() == s.len(),
    decreases s.len(),
{
    if s.len() == 0 {
        assert(map_of(s).dom() =~= Set::<u8>::empty());
    } else {
        assert(keys_distinct(s.drop_last())) by {
            assert forall|a: int, b: int|
                0 <= a < b < s.drop_last().len() implies (#[trigger] s.drop_last()[a]).0
                != (#[trigger] s.drop_last()[b]).0 by {
                assert(s[a] == s.drop_last()[a]);
                assert(s[b] == s.drop_last()[b]);
            }
        }
        lemma_map_of_len(s.drop_last());
        lemma_map_of_contains(s.drop_last(), s.last().0);
        assert(!map_of(s.drop_last()).contains_key(s.last().0)) by {
            if map_of(s.drop_last()).contains_key(s.last().0) {
                let i = choose|i: int|
                    0 <= i < s.drop_last().len() && (#[trigger] s.drop_last()[i]).0 == s.last().0;
                assert((s[i]).0 == s.last().0);
            }
        }
        assert(map_of(s).dom() =~= map_of(s.drop_last()).dom().insert(s.last().0));
        vstd::set::axiom_set_insert_len(map_of(s.drop_last()).dom(), s.last().0);
    }
}

/// Distinct keys and distinct values make the described map injective.
pub proof fn lemma_map_of_injective(s: Seq<(u8, u8)>)
    requires
        keys_distinct(s),
        vals_distinct(s),
    ensures
        injective(map_of(s)),
{
    assert forall|k1: u8, k2: u8|
        map_of(s).contains_key(k1) && map_of(s).contains_key(k2) && map_of(s)[k1] == map_of(
            s,
        )[k2] implies k1 == k2 by {
        lemma_map_of_value_source(s, k1);
        lemma_map_of_value_source(s, k2);
        let i1 = choose|i: int|
            0 <= i < s.len() && (#[trigger] s[i]).0 == k1 && s[i].1 == map_of(s)[k1];
        let i2 = choose|i: int|
            0 <= i < s.len() && (#[trigger] s[i]).0 == k2 && s[i].1 == map_of(s)[k2];
        if i1 != i2 {
            assert(s[i1].1 != s[i2].1);
        }
    }
}

/// A partial substitution alphabet: an injective map from encrypted bytes to
/// decrypted bytes. Created empty, extended as the search commits encrypted
/// tokens to candidate words, and never mutated in place: each extension is a
/// fresh value owned by its own search branch.
pub struct Mapping {
    pub(crate) pairs: Vec<(u8, u8)>,
}

impl View for Mapping {
    type V = Map<u8, u8>;

    closed spec fn view(&self) -> Map<u8, u8> {
        map_of(self.pairs@)
    }
}

impl Mapping {
    #[verifier::type_invariant]
    pub(crate) open spec fn inv(self) -> bool {
        keys_distinct(self.pairs@) && vals_distinct(self.pairs@)
    }

    /// The entries underlying the map, for reasoning; pairwise distinct in
    /// both keys and values.
    pub closed spec fn entries(self) -> Seq<(u8, u8)> {
        self.pairs@
    }

    /// A well-formed mapping is injective.
    pub(crate) proof fn lemma_injective_of_inv(m: Mapping)
        requires
            m.inv(),
        ensures
            injective(m@),
    {
        lemma_map_of_injective(m.pairs@);
    }

    /// The map a mapping denotes is the one its entries describe.
    pub proof fn lemma_view_is_entries(m: Mapping)
        ensures
            m@ == map_of(m.entries()),
    {
    }

    /// The empty mapping: the initial state of every solve.
    pub fn empty() -> (m: Mapping)
        ensures
            m@ == Map::<u8, u8>::empty(),
    {
        let m = Mapping { pairs: Vec::new() };
        proof {
            assert(m@ =~= Map::<u8, u8>::empty());
        }
        m
    }

    /// Build a mapping from entries with distinct keys and values.
    pub(crate) fn from_pairs(pairs: Vec<(u8, u8)>) -> (m: Mapping)
        requires
            keys_distinct(pairs@),
            vals_distinct(pairs@),
        ensures
            m@ == map_of(pairs@),
            m.entries() == pairs@,
    {
        Mapping { pairs }
    }

    /// The image of one encrypted byte, if the mapping assigns one.
    pub fn get(&self, k: u8) -> (r: Option<u8>)
        ensures
            match r {
                Some(v) => self@.contains_key(k) && self@[k] == v,
                None => !self@.contains_key(k),
            },
    {
        proof {
            use_type_invariant(&*self);
        }
        lookup(&self.pairs, k)
    }

    /// The number of assigned encrypted bytes.
    pub fn len(&self) -> (n: usize)
        ensures
            n == self@.dom().len(),
    {
        proof {
            use_type_invariant(&*self);
            lemma_map_of_len(self.pairs@);
        }
        self.pairs.len()
    }

    /// A copy of the entries, for extending into a new mapping.
    pub(crate) fn entries_copy(&self) -> (r: Vec<(u8, u8)>)
        ensures
            r@ == self.entries(),
            keys_distinct(r@),
            vals_distinct(r@),
    {
        proof {
            use_type_invariant(&*self);
        }
        let mut r: Vec<(u8, u8)> = Vec::new();
        let n = self.pairs.len();
        let mut i: usize = 0;
        while i < n
            invariant
                n == self.pairs@.len(),
                i <= n,
                r@ == self.pairs@.take(i as int),
            decreases n - i,
        {
            r.push(self.pairs[i]);
            proof {
                assert(r@ =~= self.pairs@.take(i as int + 1));
            }
            i += 1;
        }
        proof {
            assert(r@ =~= self.pairs@);
        }
        r
    }
}

/// Scan an association list for a key; with distinct keys this agrees with
/// the described map.
pub(crate) fn lookup(pairs: &Vec<(u8, u8)>, k: u8) -> (r: Option<u8>)
    requires
        keys_distinct(pairs@),
    ensures
        match r {
            Some(v) => map_of(pairs@).contains_key(k) && map_of(pairs@)[k] == v,
            None => !map_of(pairs@).contains_key(k),
        },
{
    let n = pairs.len();
    let mut i: usize = 0;
    while i < n
        invariant
            n == pairs@.len(),
            i <= n,
            keys_distinct(pairs@),
            forall|j: int| 0 <= j < i ==> (#[trigger] pairs@[j]).0 != k,
        decreases n - i,
    {
        let (pk, pv) = pairs[i];
        if pk == k {
            proof {
                lemma_map_of_index(pairs@, i as int);
            }
            return Some(pv);
        }
        i += 1;
    }
    proof {
        lemma_map_of_contains(pairs@, k);
    }
    None
}

} // verus!
