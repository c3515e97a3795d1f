use cryptogram::mapping::Mapping;
use cryptogram::pattern::Pattern;
use cryptogram::phrase::Phrase;
use cryptogram::solver::render;
use cryptogram::solver::Solver;

fn phrase(s: &str) -> Phrase {
    Phrase::from_str(s).unwrap()
}

fn dictionary(words: &[&str]) -> Vec<Phrase> {
    let mut out = Vec::new();
    for w in words {
        out.push(phrase(w));
    }
    out
}

fn sorted_bytes(results: &[Phrase]) -> Vec<Vec<u8>> {
    let mut out: Vec<Vec<u8>> = Vec::new();
    for p in results {
        out.push(p.as_bytes().clone());
    }
    out.sort();
    out
}

#[test]
fn pattern_book_feed() {
    let book = Pattern::of_bytes(&b"book".to_vec());
    let feed = Pattern::of_bytes(&b"feed".to_vec());
    assert_eq!(book.ids(), &vec![0, 1, 1, 2]);
    assert_eq!(feed.ids(), &vec![0, 1, 1, 2]);
    assert!(book.same_as(&feed));
}

#[test]
fn pattern_deed_roof() {
    let deed = Pattern::of_bytes(&b"deed".to_vec());
    let roof = Pattern::of_bytes(&b"roof".to_vec());
    assert_eq!(deed.ids(), &vec![0, 1, 1, 0]);
    assert_eq!(roof.ids(), &vec![0, 1, 1, 2]);
    assert!(!deed.same_as(&roof));
}

#[test]
fn pattern_empty_and_distinct() {
    let empty = Pattern::of_bytes(&Vec::new());
    assert_eq!(empty.ids().len(), 0);
    let abc = Pattern::of_bytes(&b"abc".to_vec());
    assert_eq!(abc.ids(), &vec![0, 1, 2]);
}

#[test]
fn phrase_rejects_non_ascii() {
    assert!(Phrase::from_str("caf\u{e9}").is_none());
}

#[test]
fn phrase_lowercases() {
    let p = phrase("HeLLo World");
    assert_eq!(p.as_bytes(), &b"hello world".to_vec());
}

#[test]
fn phrase_tokens_split_on_whitespace() {
    let p = phrase("god  dog\tcat");
    let toks = p.tokens();
    assert_eq!(toks, vec![b"god".to_vec(), b"dog".to_vec(), b"cat".to_vec()]);
}

#[test]
fn solve_unsatisfiable_token_returns_empty() {
    let words = dictionary(&["dog", "cat"]);
    let solver = Solver::from_dictionary(&words);
    let results = solver.solve(&phrase("xyzz"));
    assert!(results.is_empty());
}

#[test]
fn solve_concrete_scenario_two_solutions() {
    let words = dictionary(&["too", "see"]);
    let solver = Solver::from_dictionary(&words);
    let results = solver.solve(&phrase("xee"));
    assert_eq!(sorted_bytes(&results), vec![b"see".to_vec(), b"too".to_vec()]);
}

#[test]
fn solve_multi_word_consistency() {
    let words = dictionary(&["dog", "god"]);
    let solver = Solver::from_dictionary(&words);
    let p = phrase("god dog");
    let results = solver.solve(&p);
    assert_eq!(
        sorted_bytes(&results),
        vec![b"dog god".to_vec(), b"god dog".to_vec()]
    );
    // The same encrypted byte decodes identically at every position.
    let enc = p.as_bytes();
    for r in &results {
        let dec = r.as_bytes();
        assert_eq!(dec.len(), enc.len());
        for i in 0..enc.len() {
            for j in 0..enc.len() {
                if enc[i] == enc[j] {
                    assert_eq!(dec[i], dec[j]);
                }
            }
        }
    }
}

#[test]
fn solve_round_trip_rot13() {
    // "the cat" encrypted with the rotate-by-thirteen alphabet.
    let words = dictionary(&["the", "cat"]);
    let solver = Solver::from_dictionary(&words);
    let results = solver.solve(&phrase("gur png"));
    let decoded = sorted_bytes(&results);
    assert!(decoded.contains(&b"the cat".to_vec()));
}

#[test]
fn solve_empty_dictionary() {
    let words = dictionary(&[]);
    let solver = Solver::from_dictionary(&words);
    let results = solver.solve(&phrase("abc"));
    assert!(results.is_empty());
}

#[test]
fn solve_whitespace_only_phrase() {
    // No tokens: the empty mapping is the sole solution and rendering leaves
    // the phrase unchanged.
    let words = dictionary(&["dog"]);
    let solver = Solver::from_dictionary(&words);
    let results = solver.solve(&phrase("   "));
    assert_eq!(results.len(), 1);
    assert_eq!(results[0].as_bytes(), &b"   ".to_vec());
}

#[test]
fn solve_duplicate_dictionary_words_harmless() {
    let words = dictionary(&["too", "see", "see", "too"]);
    let solver = Solver::from_dictionary(&words);
    let results = solver.solve(&phrase("xee"));
    assert_eq!(sorted_bytes(&results), vec![b"see".to_vec(), b"too".to_vec()]);
}

#[test]
fn guess_returns_injective_mappings() {
    let words = dictionary(&["dog", "god"]);
    let solver = Solver::from_dictionary(&words);
    let tokens = phrase("god").tokens();
    let mappings = solver.guess(Mapping::empty(), &tokens);
    assert_eq!(mappings.len(), 2);
    for m in &mappings {
        let mut seen: Vec<u8> = Vec::new();
        for k in 0..=255u8 {
            if let Some(v) = m.get(k) {
                assert!(!seen.contains(&v));
                seen.push(v);
            }
        }
    }
}

#[test]
fn guess_no_tokens_yields_the_mapping() {
    let words = dictionary(&["dog"]);
    let solver = Solver::from_dictionary(&words);
    let mappings = solver.guess(Mapping::empty(), &Vec::new());
    assert_eq!(mappings.len(), 1);
    assert_eq!(mappings[0].len(), 0);
}

#[test]
fn words_by_pattern_groups_structural_equals() {
    let words = dictionary(&["book", "feed", "look", "dog"]);
    let solver = Solver::from_dictionary(&words);
    let mut found = solver.words_by_pattern(&b"reem".to_vec());
    found.sort();
    assert_eq!(found, vec![b"book".to_vec(), b"feed".to_vec(), b"look".to_vec()]);
    let unseen = solver.words_by_pattern(&b"aa".to_vec());
    assert!(unseen.is_empty());
}

#[test]
fn words_by_character_and_index_buckets() {
    let words = dictionary(&["dog", "dig"]);
    let solver = Solver::from_dictionary(&words);
    let mut d0 = solver.words_by_character_and_index(b'd', 0);
    d0.sort();
    assert_eq!(d0, vec![b"dig".to_vec(), b"dog".to_vec()]);
    let o1 = solver.words_by_character_and_index(b'o', 1);
    assert_eq!(o1, vec![b"dog".to_vec()]);
    let none = solver.words_by_character_and_index(b'z', 5);
    assert!(none.is_empty());
}

#[test]
fn index_rebuild_is_deterministic() {
    let words = dictionary(&["book", "feed", "dog", "god", "dig"]);
    let s1 = Solver::from_dictionary(&words);
    let s2 = Solver::from_dictionary(&words);
    for query in [&b"moon"[..], &b"abc"[..], &b"zz"[..]] {
        let mut r1 = s1.words_by_pattern(&query.to_vec());
        let mut r2 = s2.words_by_pattern(&query.to_vec());
        r1.sort();
        r2.sort();
        assert_eq!(r1, r2);
    }
    for idx in 0..4usize {
        for u in [b'd', b'o', b'g', b'x'] {
            let mut r1 = s1.words_by_character_and_index(u, idx);
            let mut r2 = s2.words_by_character_and_index(u, idx);
            r1.sort();
            r2.sort();
            assert_eq!(r1, r2);
        }
    }
}

#[test]
fn find_candidate_matches_filters_by_mapping() {
    let words = dictionary(&["dog", "god", "cat"]);
    let solver = Solver::from_dictionary(&words);
    let empty = Mapping::empty();
    let token = b"abc".to_vec();
    let mut open = solver.find_candidate_matches(&token, &empty);
    open.sort();
    assert_eq!(open, vec![b"cat".to_vec(), b"dog".to_vec(), b"god".to_vec()]);
    // Commit a -> d; only "dog" stays consistent.
    let committed = solver
        .try_extend_mapping(&b"dog".to_vec(), &token, &empty)
        .unwrap();
    let narrowed = solver.find_candidate_matches(&token, &committed);
    assert_eq!(narrowed, vec![b"dog".to_vec()]);
}

#[test]
fn try_extend_mapping_rejects_conflicts() {
    let words = dictionary(&["dog", "cat"]);
    let solver = Solver::from_dictionary(&words);
    let empty = Mapping::empty();
    let token = b"abc".to_vec();
    let committed = solver
        .try_extend_mapping(&b"dog".to_vec(), &token, &empty)
        .unwrap();
    // "a" is already committed to "d", so "cat" is rejected.
    assert!(solver
        .try_extend_mapping(&b"cat".to_vec(), &token, &committed)
        .is_none());
    // Extending with the same word again succeeds and changes nothing.
    let again = solver
        .try_extend_mapping(&b"dog".to_vec(), &token, &committed)
        .unwrap();
    assert_eq!(again.len(), committed.len());
}

#[test]
fn try_extend_mapping_enforces_injectivity() {
    let words = dictionary(&[]);
    let solver = Solver::from_dictionary(&words);
    let empty = Mapping::empty();
    // Two distinct encrypted bytes may not decode to the same byte.
    assert!(solver
        .try_extend_mapping(&b"aa".to_vec(), &b"xy".to_vec(), &empty)
        .is_none());
    // A repeated encrypted byte must decode consistently.
    assert!(solver
        .try_extend_mapping(&b"ab".to_vec(), &b"xx".to_vec(), &empty)
        .is_none());
}

#[test]
fn render_substitutes_and_passes_through() {
    let words = dictionary(&[]);
    let solver = Solver::from_dictionary(&words);
    let empty = Mapping::empty();
    let m = solver
        .try_extend_mapping(&b"the".to_vec(), &b"gur".to_vec(), &empty)
        .unwrap();
    assert_eq!(m.get(b'g'), Some(b't'));
    assert_eq!(m.get(b'q'), None);
    let out = render(&m, &phrase("gur, gur!"));
    assert_eq!(out, b"the, the!".to_vec());
}

#[test]
fn solve_repeated_token() {
    // Duplicate tokens are resolved once and decode identically.
    let words = dictionary(&["dog", "god"]);
    let solver = Solver::from_dictionary(&words);
    let results = solver.solve(&phrase("god god"));
    assert_eq!(
        sorted_bytes(&results),
        vec![b"dog dog".to_vec(), b"god god".to_vec()]
    );
}
