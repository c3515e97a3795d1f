//! Library-wide laws, stated and proved against the public contracts.

use crate::mapping::injective;
use crate::pattern::pattern_of;
use crate::phrase::is_space;
use crate::phrase::lemma_nonspace_in_token;
use crate::phrase::lemma_token_bytes_occur;
use crate::phrase::lemma_tokens_map;
use crate::phrase::lemma_tokens_nonspace;
use crate::phrase::tokens_of;
use crate::solver::dict_contains;
use crate::solver::is_decoding;
use crate::solver::is_solution;
use crate::solver::render_spec;
use crate::solver::tokens_bytes;
use crate::solver::word_in;
use vstd::prelude::*;

verus! {

/// Injectivity: every mapping the backtracking search returns is injective —
/// no two distinct encrypted bytes decode to the same byte. (`Solver::guess`
/// ensures that each returned mapping satisfies `is_completion`, and
/// `Solver::solve` renders only such mappings.)
pub proof fn lemma_completion_injective(
    d: Seq<Seq<u8>>,
    ts: Seq<Seq<u8>>,
    m0: Map<u8, u8>,
    m: Map<u8, u8>,
)
    requires
        crate::solver::is_completion(d, ts, m0, m),
    ensures
        injective(m),
{
}

/// Multi-word consistency: every decoding that a solve call returns is the
/// rendering of one single mapping over the whole phrase, so the same
/// encrypted byte decodes to the same byte at every position it occupies, in
/// whatever token. (`Solver::solve` ensures that each of its results
/// satisfies `is_decoding`.)
pub proof fn lemma_decoding_consistent(d: Seq<Seq<u8>>, p: Seq<u8>, s: Seq<u8>)
    requires
        is_decoding(d, p, s),
    ensures
        s.len() == p.len(),
        forall|i: int, j: int|
            #![trigger p[i], p[j]]
            0 <= i < p.len() && 0 <= j < p.len() && p[i] == p[j] ==> s[i] == s[j],
{
    let m = choose|m: Map<u8, u8>| #[trigger] is_solution(d, p, m) && s == render_spec(m, p);
    assert forall|i: int, j: int|
        #![trigger p[i], p[j]]
        0 <= i < p.len() && 0 <= j < p.len() && p[i] == p[j] implies s[i] == s[j] by {
        assert(s[i] == render_spec(m, p)[i]);
        assert(s[j] == render_spec(m, p)[j]);
    }
}

/// Determinism of indexing, pattern queries: `Solver::words_by_pattern`
/// promises, for any solver, that its result holds exactly the dictionary
/// words sharing the query's pattern. Two solvers built from the same word
/// list (`Solver::from_dictionary` fixes `dict()` to that list) therefore
/// answer every pattern query with the same set of words.
pub proof fn lemma_pattern_lookup_deterministic(
    d1: Seq<Seq<u8>>,
    d2: Seq<Seq<u8>>,
    r1: Seq<Vec<u8>>,
    r2: Seq<Vec<u8>>,
    word: Seq<u8>,
)
    requires
        d1 == d2,
        forall|x: Seq<u8>| #[trigger]
            word_in(r1, x) <==> (dict_contains(d1, x) && pattern_of(x) == pattern_of(word)),
        forall|x: Seq<u8>| #[trigger]
            word_in(r2, x) <==> (dict_contains(d2, x) && pattern_of(x) == pattern_of(word)),
    ensures
        forall|x: Seq<u8>| #[trigger] word_in(r1, x) <==> #[trigger] word_in(r2, x),
{
}

/// Determinism of indexing, position queries: as for pattern queries, the
/// contract of `Solver::words_by_character_and_index` pins the result set as
/// a function of the word list and the query alone, so rebuilding the index
/// from the same word list answers every position query identically.
pub proof fn lemma_position_lookup_deterministic(
    d1: Seq<Seq<u8>>,
    d2: Seq<Seq<u8>>,
    r1: Seq<Vec<u8>>,
    r2: Seq<Vec<u8>>,
    idx: usize,
    u: u8,
)
    requires
        d1 == d2,
        forall|x: Seq<u8>| #[trigger]
            word_in(r1, x) <==> (dict_contains(d1, x) && idx < x.len() && x[idx as int] == u),
        forall|x: Seq<u8>| #[trigger]
            word_in(r2, x) <==> (dict_contains(d2, x) && idx < x.len() && x[idx as int] == u),
    ensures
        forall|x: Seq<u8>| #[trigger] word_in(r1, x) <==> #[trigger] word_in(r2, x),
{
}

/// Encrypting a phrase with a substitution alphabet: every non-space byte is
/// replaced by its image, whitespace passes through.
pub open spec fn encrypt(pi: Map<u8, u8>, p: Seq<u8>) -> Seq<u8> {
    p.map_values(
        |b: u8|
            if is_space(b) {
                b
            } else {
                pi[b]
            },
    )
}

/// Round trip: encrypt a phrase whose tokens are all dictionary words with
/// any injective substitution alphabet that maps its letters to non-space
/// bytes; then the original phrase is a decoding of the encrypted phrase.
/// Since `Solver::solve` ensures that its results are exactly the decodings,
/// the solve call on the encrypted phrase returns the original phrase among
/// its results.
pub proof fn lemma_round_trip(d: Seq<Seq<u8>>, p: Seq<u8>, pi: Map<u8, u8>)
    requires
        injective(pi),
        forall|ti: int|
            0 <= ti < tokens_of(p).len() ==> dict_contains(d, #[trigger] tokens_of(p)[ti]),
        forall|i: int|
            0 <= i < p.len() && !is_space(#[trigger] p[i]) ==> pi.contains_key(p[i]) && !is_space(
                pi[p[i]],
            ),
    ensures
        is_decoding(d, encrypt(pi, p), p),
{
    let g = |b: u8|
        if is_space(b) {
            b
        } else {
            pi[b]
        };
    let e = encrypt(pi, p);
    assert(e == p.map_values(g));
    assert forall|i: int| 0 <= i < p.len() implies is_space(g(#[trigger] p[i])) == is_space(
        p[i],
    ) by {}
    lemma_tokens_map(p, g, 0);
    let pts = tokens_of(p);
    let ets = tokens_of(e);
    let lift = |t: Seq<u8>| t.map_values(g);
    assert(ets == pts.map_values(lift));
    lemma_tokens_nonspace(p, 0);
    lemma_tokens_nonspace(e, 0);
    lemma_token_bytes_occur(p, 0);
    // Every token byte of the plaintext is a letter the alphabet covers, and
    // the encrypted tokens carry its image at the same place.
    assert forall|t: int, x: int|
        0 <= t < pts.len() && 0 <= x < pts[t].len() implies pi.contains_key(#[trigger] pts[t][x])
        && ets[t][x] == pi[pts[t][x]] && !is_space(pi[pts[t][x]]) by {
        let pos = choose|pos: int| 0 <= pos < p.len() && #[trigger] p[pos] == pts[t][x];
        assert(!is_space(pts[t][x]));
        assert(pi.contains_key(p[pos]) && !is_space(pi[p[pos]]));
        assert(ets[t] == lift(pts[t]));
        assert(ets[t][x] == g(pts[t][x]));
    }
    // The decoding mapping: on each encrypted token byte, the letter the
    // alphabet sent there.
    let m = Map::new(
        |c: u8| tokens_bytes(ets).contains(c),
        |c: u8| choose|b: u8| pi.contains_key(b) && pi[b] == c,
    );
    // Each assigned byte really is an image, and the mapping inverts the
    // alphabet there.
    assert forall|c: u8| #[trigger]
        m.contains_key(c) implies pi.contains_key(m[c]) && pi[m[c]] == c by {
        let (t, x) = choose|t: int, x: int|
            0 <= t < ets.len() && 0 <= x < ets[t].len() && #[trigger] ets[t][x] == c;
        assert(pi.contains_key(pts[t][x]) && pi[pts[t][x]] == c);
        let b = choose|b: u8| pi.contains_key(b) && pi[b] == c;
        assert(m[c] == b);
    }
    assert forall|t: int, x: int|
        0 <= t < pts.len() && 0 <= x < pts[t].len() implies m.contains_key(#[trigger] ets[t][x])
        && m[ets[t][x]] == pts[t][x] by {
        assert(tokens_bytes(ets).contains(ets[t][x]));
        assert(pi.contains_key(m[ets[t][x]]) && pi[m[ets[t][x]]] == ets[t][x]);
        assert(pi[pts[t][x]] == ets[t][x]);
    }
    assert(is_solution(d, e, m)) by {
        assert(injective(m)) by {
            assert forall|c1: u8, c2: u8|
                m.contains_key(c1) && m.contains_key(c2) && m[c1] == m[c2] implies c1 == c2 by {
                assert(pi[m[c1]] == c1);
                assert(pi[m[c2]] == c2);
            }
        }
        assert forall|ti: int| 0 <= ti < ets.len() implies dict_contains(
            d,
            crate::solver::apply_full(m, #[trigger] ets[ti]),
        ) by {
            let w = crate::solver::apply_full(m, ets[ti]);
            assert(w =~= pts[ti]) by {
                assert(ets[ti] == lift(pts[ti]));
                assert forall|x: int| 0 <= x < ets[ti].len() implies m[ets[ti][x]]
                    == pts[ti][x] by {}
            }
            assert(dict_contains(d, pts[ti]));
        }
    }
    assert(render_spec(m, e) =~= p) by {
        assert forall|i: int| 0 <= i < p.len() implies render_spec(m, e)[i] == p[i] by {
            assert(e[i] == g(p[i]));
            if is_space(p[i]) {
                assert(!m.contains_key(e[i])) by {
                    if m.contains_key(e[i]) {
                        let (t, x) = choose|t: int, x: int|
                            0 <= t < ets.len() && 0 <= x < ets[t].len() && #[trigger] ets[t][x]
                                == e[i];
                        assert(!is_space(ets[t][x]));
                    }
                }
            } else {
                lemma_nonspace_in_token(p, 0, i);
                let (t, x) = choose|t: int, x: int|
                    0 <= t < pts.len() && 0 <= x < pts[t].len() && #[trigger] pts[t][x] == p[i];
                assert(ets[t][x] == pi[pts[t][x]]);
                assert(e[i] == pi[p[i]]);
                assert(m.contains_key(ets[t][x]) && m[ets[t][x]] == pts[t][x]);
            }
        }
    }
    assert(is_solution(d, e, m) && p == render_spec(m, e));
}

} // verus!
