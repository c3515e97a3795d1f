//! Phrases: validated ASCII-lowercase text, and its decomposition into
//! whitespace-separated tokens.

use vstd::prelude::*;

verus! {

/// Every byte is ASCII and no byte is an uppercase letter.
pub open spec fn lower_ascii(s: Seq<u8>) -> bool {
    forall|i: int| 0 <= i < s.len() ==> s[i] < 128 && !(65 <= #[trigger] s[i] <= 90)
}

/// ASCII whitespace, as the byte of an ASCII whitespace character: space,
/// tab, line feed, vertical tab, form feed, carriage return.
pub open spec fn is_space(b: u8) -> bool {
    b == 32 || (9 <= b <= 13)
}

/// Lowercasing a single ASCII byte.
pub open spec fn to_lower_byte(b: u8) -> u8 {
    if 65 <= b <= 90 {
        (b + 32) as u8
    } else {
        b
    }
}

/// The bytes of an ASCII character sequence, lowercased.
pub open spec fn lower_bytes_of(s: Seq<char>) -> Seq<u8> {
    Seq::new(s.len(), |i: int| to_lower_byte(s[i] as u8))
}

/// End of the run of non-space bytes starting at `k`: the first position at
/// or after `k` holding a space, or the end of the sequence.
pub open spec fn run_end(p: Seq<u8>, k: int) -> int
    decreases p.len() - k,
{
    if k < 0 || k >= p.len() || is_space(p[k]) {
        k
    } else {
        run_end(p, k + 1)
    }
}

/// `run_end` bounds and characterization.
pub proof fn lemma_run_end(p: Seq<u8>, k: int)
    requires
        0 <= k <= p.len(),
    ensures
        k <= run_end(p, k) <= p.len(),
        forall|j: int| k <= j < run_end(p, k) ==> !is_space(p[j]),
        run_end(p, k) < p.len() ==> is_space(p[run_end(p, k)]),
        k < p.len() && !is_space(p[k]) ==> run_end(p, k) > k,
    decreases p.len() - k,
{
    if k < p.len() && !is_space(p[k]) {
        lemma_run_end(p, k + 1);
    }
}

/// A run that ends exactly where the spaces (or the sequence) end.
pub proof fn lemma_run_end_exact(p: Seq<u8>, k: int, e: int)
    requires
        0 <= k <= e <= p.len(),
        forall|j: int| k <= j < e ==> !is_space(p[j]),
        e == p.len() || is_space(p[e]),
    ensures
        run_end(p, k) == e,
    decreases e - k,
{
    if k < e {
        lemma_run_end_exact(p, k + 1, e);
    }
}

/// The whitespace-separated tokens of `p` from position `k` on: maximal runs
/// of non-space bytes, in order.
pub open spec fn tokens_from(p: Seq<u8>, k: int) -> Seq<Seq<u8>>
    decreases p.len() - k,
    via tokens_from_decreases
{
    if k < 0 || k >= p.len() {
        Seq::empty()
    } else if is_space(p[k]) {
        tokens_from(p, k + 1)
    } else {
        seq![p.subrange(k, run_end(p, k))] + tokens_from(p, run_end(p, k))
    }
}

#[via_fn]
proof fn tokens_from_decreases(p: Seq<u8>, k: int) {
    if 0 <= k && k < p.len() && !is_space(p[k]) {
        lemma_run_end(p, k);
    }
}

/// The whitespace-separated tokens of a byte sequence.
pub open spec fn tokens_of(p: Seq<u8>) -> Seq<Seq<u8>> {
    tokens_from(p, 0)
}

/// Every token is a non-empty run of non-space bytes.
pub proof fn lemma_tokens_nonspace(p: Seq<u8>, k: int)
    requires
        0 <= k <= p.len(),
    ensures
        forall|t: int, i: int|
            0 <= t < tokens_from(p, k).len() && 0 <= i < tokens_from(p, k)[t].len() ==> !is_space(
                #[trigger] tokens_from(p, k)[t][i],
            ),
        forall|t: int| 0 <= t < tokens_from(p, k).len() ==> #[trigger] tokens_from(
            p,
            k,
        )[t].len() > 0,
    decreases p.len() - k,
{
    if k >= p.len() {
        assert(tokens_from(p, k).len() == 0);
    } else if is_space(p[k]) {
        lemma_tokens_nonspace(p, k + 1);
        assert(tokens_from(p, k) == tokens_from(p, k + 1));
        let ts = tokens_from(p, k);
        assert forall|t: int, i: int|
            0 <= t < ts.len() && 0 <= i < ts[t].len() implies !is_space(ts[t][i]) by {
            assert(tokens_from(p, k + 1)[t][i] == ts[t][i]);
        }
        assert forall|t: int| 0 <= t < ts.len() implies ts[t].len() > 0 by {
            assert(tokens_from(p, k + 1)[t].len() > 0);
        }
    } else {
        lemma_run_end(p, k);
        let e = run_end(p, k);
        lemma_tokens_nonspace(p, e);
        let ts = tokens_from(p, k);
        let rest = tokens_from(p, e);
        assert(ts == seq![p.subrange(k, e)] + rest);
        assert forall|t: int, i: int|
            0 <= t < ts.len() && 0 <= i < ts[t].len() implies !is_space(ts[t][i]) by {
            if t == 0 {
                assert(ts[0] == p.subrange(k, e));
                assert(ts[0][i] == p[k + i]);
            } else {
                assert(ts[t] == rest[t - 1]);
            }
        }
        assert forall|t: int| 0 <= t < ts.len() implies ts[t].len() > 0 by {
            if t == 0 {
                assert(ts[0] == p.subrange(k, e));
            } else {
                assert(ts[t] == rest[t - 1]);
            }
        }
    }
}

/// A byte at a non-space position occurs inside one of the tokens.
pub proof fn lemma_nonspace_in_token(p: Seq<u8>, k: int, i: int)
    requires
        0 <= k <= i < p.len(),
        !is_space(p[i]),
    ensures
        exists|t: int, x: int|
            0 <= t < tokens_from(p, k).len() && 0 <= x < tokens_from(p, k)[t].len()
                && #[trigger] tokens_from(p, k)[t][x] == p[i],
    decreases p.len() - k,
{
    let ts = tokens_from(p, k);
    if is_space(p[k]) {
        lemma_nonspace_in_token(p, k + 1, i);
        let (t, x) = choose|t: int, x: int|
            0 <= t < tokens_from(p, k + 1).len() && 0 <= x < tokens_from(p, k + 1)[t].len()
                && #[trigger] tokens_from(p, k + 1)[t][x] == p[i];
        assert(ts[t][x] == p[i]);
    } else {
        lemma_run_end(p, k);
        let e = run_end(p, k);
        let rest = tokens_from(p, e);
        assert(ts == seq![p.subrange(k, e)] + rest);
        if i < e {
            assert(ts[0][i - k] == p[i]);
        } else {
            assert(i > e || !is_space(p[e]));
            lemma_nonspace_in_token(p, e, i);
            let (t, x) = choose|t: int, x: int|
                0 <= t < rest.len() && 0 <= x < rest[t].len() && #[trigger] rest[t][x] == p[i];
            assert(ts[t + 1][x] == p[i]);
        }
    }
}

/// A byte map that preserves spaceness preserves run ends.
pub proof fn lemma_run_end_map(p: Seq<u8>, g: spec_fn(u8) -> u8, k: int)
    requires
        forall|i: int| 0 <= i < p.len() ==> is_space(g(#[trigger] p[i])) == is_space(p[i]),
        0 <= k <= p.len(),
    ensures
        run_end(p.map_values(g), k) == run_end(p, k),
    decreases p.len() - k,
{
    let e = p.map_values(g);
    if k < p.len() {
        assert(e[k] == g(p[k]));
        if !is_space(p[k]) {
            lemma_run_end_map(p, g, k + 1);
        }
    }
}

/// A byte map that preserves spaceness maps tokens to tokens: the tokens of
/// the mapped phrase are the mapped tokens of the phrase.
pub proof fn lemma_tokens_map(p: Seq<u8>, g: spec_fn(u8) -> u8, k: int)
    requires
        forall|i: int| 0 <= i < p.len() ==> is_space(g(#[trigger] p[i])) == is_space(p[i]),
        0 <= k <= p.len(),
    ensures
        tokens_from(p.map_values(g), k) == tokens_from(p, k).map_values(
            |t: Seq<u8>| t.map_values(g),
        ),
    decreases p.len() - k,
{
    let e = p.map_values(g);
    let lift = |t: Seq<u8>| t.map_values(g);
    if k >= p.len() {
        assert(tokens_from(e, k) =~= tokens_from(p, k).map_values(lift));
    } else if is_space(p[k]) {
        assert(e[k] == g(p[k]));
        lemma_tokens_map(p, g, k + 1);
    } else {
        assert(e[k] == g(p[k]));
        lemma_run_end(p, k);
        lemma_run_end_map(p, g, k);
        let re = run_end(p, k);
        lemma_tokens_map(p, g, re);
        assert(e.subrange(k, re) =~= p.subrange(k, re).map_values(g)) by {
            assert forall|x: int| 0 <= x < re - k implies e.subrange(k, re)[x] == p.subrange(
                k,
                re,
            ).map_values(g)[x] by {
                assert(e[k + x] == g(p[k + x]));
            }
        }
        let lhs = tokens_from(e, k);
        let rhs = tokens_from(p, k).map_values(lift);
        assert(lhs =~= rhs) by {
            assert(lhs == seq![e.subrange(k, re)] + tokens_from(e, re));
            assert(tokens_from(p, k) == seq![p.subrange(k, re)] + tokens_from(p, re));
            assert forall|t: int| 0 <= t < lhs.len() implies lhs[t] == rhs[t] by {
                if t == 0 {
                    assert(lhs[0] == e.subrange(k, re));
                    assert(rhs[0] == lift(p.subrange(k, re)));
                } else {
                    assert(lhs[t] == tokens_from(e, re)[t - 1]);
                    assert(tokens_from(e, re)[t - 1] == tokens_from(p, re).map_values(lift)[t - 1]);
                    assert(rhs[t] == lift(tokens_from(p, re)[t - 1]));
                }
            }
        }
    }
}

/// Every token byte occurs in the phrase itself.
pub proof fn lemma_token_bytes_occur(p: Seq<u8>, k: int)
    requires
        0 <= k <= p.len(),
    ensures
        forall|t: int, x: int|
            #![trigger tokens_from(p, k)[t][x]]
            0 <= t < tokens_from(p, k).len() && 0 <= x < tokens_from(p, k)[t].len()
                ==> exists|pos: int|
                0 <= pos < p.len() && #[trigger] p[pos] == tokens_from(p, k)[t][x],
    decreases p.len() - k,
{
    let ts = tokens_from(p, k);
    if k >= p.len() {
    } else if is_space(p[k]) {
        lemma_token_bytes_occur(p, k + 1);
        assert(ts == tokens_from(p, k + 1));
        assert forall|t: int, x: int|
            #![trigger ts[t][x]]
            0 <= t < ts.len() && 0 <= x < ts[t].len() implies exists|pos: int|
            0 <= pos < p.len() && #[trigger] p[pos] == ts[t][x] by {
            assert(ts[t][x] == tokens_from(p, k + 1)[t][x]);
        }
    } else {
        lemma_run_end(p, k);
        let re = run_end(p, k);
        lemma_token_bytes_occur(p, re);
        let rest = tokens_from(p, re);
        assert(ts == seq![p.subrange(k, re)] + rest);
        assert forall|t: int, x: int|
            #![trigger ts[t][x]]
            0 <= t < ts.len() && 0 <= x < ts[t].len() implies exists|pos: int|
            0 <= pos < p.len() && #[trigger] p[pos] == ts[t][x] by {
            if t == 0 {
                assert(ts[0] == p.subrange(k, re));
                assert(p[k + x] == ts[0][x]);
            } else {
                assert(ts[t] == rest[t - 1]);
                assert(rest[t - 1][x] == ts[t][x]);
            }
        }
    }
}

/// A phrase: text guaranteed to be ASCII with no uppercase letters.
pub struct Phrase {
    bytes: Vec<u8>,
}

impl View for Phrase {
    type V = Seq<u8>;

    closed spec fn view(&self) -> Seq<u8> {
        self.bytes@
    }
}

impl Phrase {
    #[verifier::type_invariant]
    spec fn inv(self) -> bool {
        lower_ascii(self@)
    }

    /// Validate and normalize arbitrary text into a phrase: accepted exactly
    /// when it is ASCII, and lowercased byte by byte.
    pub fn from_str(s: &str) -> (r: Option<Phrase>)
        ensures
            r is Some <==> vstd::string::is_ascii(s),
            r is Some ==> r.unwrap()@ == lower_bytes_of(s@),
    {
        if !s.is_ascii() {
            return None;
        }
        let n = s.unicode_len();
        let mut bytes: Vec<u8> = Vec::new();
        let mut i: usize = 0;
        while i < n
            invariant
                vstd::string::is_ascii(s),
                n == s@.len(),
                i <= n,
                bytes@.len() == i,
                forall|k: int| 0 <= k < i ==> bytes@[k] == lower_bytes_of(s@)[k],
            decreases n - i,
        {
            let b = s.get_ascii(i);
            if 65 <= b && b <= 90 {
                bytes.push(b + 32);
            } else {
                bytes.push(b);
            }
            i += 1;
        }
        proof {
            assert(bytes@ =~= lower_bytes_of(s@));
            assert(lower_ascii(bytes@)) by {
                assert forall|k: int| 0 <= k < bytes@.len() implies bytes@[k] < 128 && !(65
                    <= #[trigger] bytes@[k] <= 90) by {
                    assert('\0' <= s@[k] <= '\u{7f}');
                    assert(bytes@[k] == to_lower_byte(s@[k] as u8));
                }
            }
        }
        Some(Phrase { bytes })
    }

    /// Wrap bytes already known to be lowercase ASCII.
    pub(crate) fn from_bytes(bytes: Vec<u8>) -> (p: Phrase)
        requires
            lower_ascii(bytes@),
        ensures
            p@ == bytes@,
    {
        Phrase { bytes }
    }

    /// The underlying bytes.
    pub fn as_bytes(&self) -> (r: &Vec<u8>)
        ensures
            r@ == self@,
            lower_ascii(self@),
    {
        proof {
            use_type_invariant(&*self);
        }
        &self.bytes
    }

    /// Split the phrase into its whitespace-separated tokens.
    pub fn tokens(&self) -> (r: Vec<Vec<u8>>)
        ensures
            r@.map_values(|v: Vec<u8>| v@) == tokens_of(self@),
            lower_ascii(self@),
    {
        proof {
            use_type_invariant(&*self);
        }
        let n = self.bytes.len();
        let mut toks: Vec<Vec<u8>> = Vec::new();
        let mut i: usize = 0;
        while i < n
            invariant
                n == self@.len(),
                i <= n,
                toks@.map_values(|v: Vec<u8>| v@) + tokens_from(self@, i as int) == tokens_of(
                    self@,
                ),
            decreases n - i,
        {
            let b = self.bytes[i];
            if b == 32 || (9 <= b && b <= 13) {
                proof {
                    assert(tokens_from(self@, i as int) == tokens_from(self@, i as int + 1));
                }
                i += 1;
            } else {
                let ghost start = i as int;
                let mut cur: Vec<u8> = Vec::new();
                cur.push(b);
                i += 1;
                while i < n
                    invariant
                        n == self@.len(),
                        0 <= start < i <= n,
                        cur@ == self@.subrange(start, i as int),
                        forall|j: int| start <= j < i ==> !is_space(self@[j]),
                    ensures
                        0 <= start < i <= n,
                        cur@ == self@.subrange(start, i as int),
                        forall|j: int| start <= j < i ==> !is_space(self@[j]),
                        i == n || is_space(self@[i as int]),
                    decreases n - i,
                {
                    let c = self.bytes[i];
                    if c == 32 || (9 <= c && c <= 13) {
                        break ;
                    }
                    cur.push(c);
                    i += 1;
                    proof {
                        assert(cur@ =~= self@.subrange(start, i as int));
                    }
                }
                proof {
                    lemma_run_end_exact(self@, start, i as int);
                    assert(tokens_from(self@, start) == seq![self@.subrange(start, i as int)]
                        + tokens_from(self@, i as int));
                }
                let ghost old_toks = toks@;
                toks.push(cur);
                proof {
                    assert(toks@.map_values(|v: Vec<u8>| v@) =~= old_toks.map_values(
                        |v: Vec<u8>| v@,
                    ).push(cur@));
                    assert(old_toks.map_values(|v: Vec<u8>| v@).push(cur@) + tokens_from(
                        self@,
                        i as int,
                    ) =~= old_toks.map_values(|v: Vec<u8>| v@) + tokens_from(self@, start));
                }
            }
        }
        proof {
            assert(tokens_from(self@, n as int) =~= Seq::<Seq<u8>>::empty());
            assert(toks@.map_values(|v: Vec<u8>| v@) + tokens_from(self@, n as int)
                =~= toks@.map_values(|v: Vec<u8>| v@));
        }
        toks
    }
}

} // verus!
