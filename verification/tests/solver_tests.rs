use wordle_solver::clue::{get_clue_by_word, Clue, CluePart};
use wordle_solver::game::{run_solver_with_target, solve_for_target};
use wordle_solver::solver::{get_clue, SolverError, WordleSolver};
use wordle_solver::words::{
    full_pool, get_word_bytes, get_word_index, get_word_string, is_valid_word, words_equal,
    Dictionary,
};

fn dict_of(words: &[&[u8; 5]]) -> Dictionary {
    let v: Vec<[u8; 5]> = words.iter().map(|w| **w).collect();
    Dictionary::new(v).expect("valid dictionary")
}

#[test]
fn clue_no_letters_shared() {
    let c = get_clue_by_word(*b"abcde", *b"fghij");
    assert_eq!(
        c.0,
        [
            CluePart::B,
            CluePart::B,
            CluePart::B,
            CluePart::B,
            CluePart::B
        ]
    );
    assert_eq!(c.index(), 0);
}

#[test]
fn clue_exact_match_is_all_correct() {
    let c = get_clue_by_word(*b"crane", *b"crane");
    assert_eq!(
        c.0,
        [
            CluePart::G,
            CluePart::G,
            CluePart::G,
            CluePart::G,
            CluePart::G
        ]
    );
    assert_eq!(c.index(), 242);
}

#[test]
fn clue_duplicate_letters_consume_target_copies() {
    // "speed" against "erase": both e's of the guess find a distinct e in
    // the target, the s is present, p and d are absent
    let c = get_clue_by_word(*b"speed", *b"erase");
    assert_eq!(
        c.0,
        [
            CluePart::Y,
            CluePart::B,
            CluePart::Y,
            CluePart::Y,
            CluePart::B
        ]
    );
    assert_eq!(c.index(), 1 + 9 + 27);
}

#[test]
fn clue_duplicate_letters_never_over_marked() {
    // "pleat" holds a single e, so only the first e of "eerie" is marked
    // present; the other two stay absent
    let c = get_clue_by_word(*b"eerie", *b"pleat");
    assert_eq!(
        c.0,
        [
            CluePart::Y,
            CluePart::B,
            CluePart::B,
            CluePart::B,
            CluePart::B
        ]
    );
}

#[test]
fn clue_green_consumes_before_yellow() {
    // "holly" holds two l's, so both leading l's of "llama" are present
    let c = get_clue_by_word(*b"llama", *b"holly");
    assert_eq!(
        c.0,
        [
            CluePart::Y,
            CluePart::Y,
            CluePart::B,
            CluePart::B,
            CluePart::B
        ]
    );
    // the exact matches of "lollo" consume both l's first, so its leading
    // l has nothing left to be present in
    let c2 = get_clue_by_word(*b"lollo", *b"holly");
    assert_eq!(
        c2.0,
        [
            CluePart::B,
            CluePart::G,
            CluePart::G,
            CluePart::G,
            CluePart::B
        ]
    );
}

#[test]
fn encode_decode_roundtrip_all_codes() {
    for code in 0..243usize {
        let c = Clue::from_index(code);
        assert_eq!(c.index(), code);
    }
}

#[test]
fn decode_encode_roundtrip_specific_clues() {
    let parts = [
        CluePart::Y,
        CluePart::B,
        CluePart::G,
        CluePart::B,
        CluePart::Y,
    ];
    let c = Clue(parts);
    let back = Clue::from_index(c.index());
    assert_eq!(back.0, parts);
    assert_eq!(c.index(), 1 + 18 + 81);
}

#[test]
fn parse_reads_symbols_and_defaults_unknown_to_absent() {
    let c = Clue::parse("bygbb");
    assert_eq!(
        c.0,
        [
            CluePart::B,
            CluePart::Y,
            CluePart::G,
            CluePart::B,
            CluePart::B
        ]
    );
    let lenient = Clue::parse("xygq!");
    assert_eq!(
        lenient.0,
        [
            CluePart::B,
            CluePart::Y,
            CluePart::G,
            CluePart::B,
            CluePart::B
        ]
    );
}

#[test]
fn dictionary_rejects_non_ascii() {
    assert!(Dictionary::new(vec![[200u8, 97, 97, 97, 97]]).is_none());
    assert!(Dictionary::new(vec![*b"crane"]).is_some());
}

#[test]
fn word_lookup_finds_first_index() {
    let d = dict_of(&[b"crane", b"slate", b"crate"]);
    assert_eq!(get_word_index(&d, String::from("slate")), Some(1));
    assert_eq!(get_word_index(&d, String::from("crane")), Some(0));
    assert_eq!(get_word_index(&d, String::from("zzzzz")), None);
    assert_eq!(get_word_index(&d, String::from("cran")), None);
    assert_eq!(get_word_index(&d, String::from("cranes")), None);
}

#[test]
fn word_string_roundtrip() {
    let d = dict_of(&[b"crane", b"slate"]);
    assert_eq!(get_word_string(&d, 1), String::from("slate"));
    assert_eq!(get_word_bytes(&d, 0), *b"crane");
    assert!(words_equal(*b"crane", *b"crane"));
    assert!(!words_equal(*b"crane", *b"crate"));
}

#[test]
fn valid_word_needs_pool_membership() {
    let d = dict_of(&[b"crane", b"slate", b"crate"]);
    let pool: Vec<u16> = vec![0, 2];
    assert!(is_valid_word(&d, &pool, String::from("crane")));
    assert!(is_valid_word(&d, &pool, String::from("crate")));
    assert!(!is_valid_word(&d, &pool, String::from("slate")));
    assert!(!is_valid_word(&d, &pool, String::from("zzzzz")));
}

#[test]
fn get_clue_matches_clue_by_word() {
    let d = dict_of(&[b"crane", b"slate"]);
    let a = get_clue(&d, 0, 1).index();
    let b = get_clue_by_word(*b"crane", *b"slate").index();
    assert_eq!(a, b);
}

#[test]
fn bucket_sizes_sum_to_pool_in_every_row() {
    let d = dict_of(&[b"crane", b"slate", b"crate", b"adieu", b"aural"]);
    let pool = full_pool(d.word_count());
    let s = WordleSolver::create(false, &d, pool);
    for row in &s.game_state {
        assert_eq!(row.len(), 243);
        let total: usize = row.iter().map(|b| b.len()).sum();
        assert_eq!(total, 5);
    }
}

#[test]
fn update_never_grows_candidates() {
    let d = dict_of(&[b"crane", b"slate", b"crate", b"adieu", b"aural"]);
    let pool = full_pool(d.word_count());
    let mut s = WordleSolver::create(false, &d, pool);
    let before = s.possible_answers.len();
    let clue = get_clue(&d, 1, 2);
    s.update(1, clue);
    assert!(s.possible_answers.len() <= before);
    assert!(s.possible_answers.contains(&2));
    let mid = s.possible_answers.len();
    let clue2 = get_clue(&d, 0, 2);
    s.update(0, clue2);
    assert!(s.possible_answers.len() <= mid);
}

#[test]
fn solving_twice_gives_identical_sequences() {
    let d = dict_of(&[b"crane", b"slate", b"crate", b"adieu", b"aural", b"mount"]);
    let pool = full_pool(d.word_count());
    let s1 = WordleSolver::create(false, &d, pool.clone());
    let s2 = WordleSolver::create(false, &d, pool);
    let r1 = solve_for_target(&d, 2, s1);
    let r2 = solve_for_target(&d, 2, s2);
    assert_eq!(r1, r2);
}

#[test]
fn forced_guesses_played_first_in_supplied_order() {
    let d = dict_of(&[b"crane", b"slate", b"crate", b"adieu", b"aural", b"mount"]);
    let pool = full_pool(d.word_count());
    let mut s = WordleSolver::create_with_guesses(false, &d, pool, vec![5, 3]);
    let target: u16 = 2;
    let g1 = s.get_guess().unwrap();
    assert_eq!(g1, 5);
    s.update(g1, get_clue(&d, g1, target as usize));
    let g2 = s.get_guess().unwrap();
    assert_eq!(g2, 3);
    s.update(g2, get_clue(&d, g2, target as usize));
    // queue spent: scoring takes over and the session still ends at the target
    let rest = solve_for_target(&d, target, s);
    assert_eq!(*rest.last().unwrap(), 2);
}

#[test]
fn hard_mode_guesses_stay_candidates() {
    let d = dict_of(&[b"crane", b"slate", b"crate", b"adieu", b"aural", b"mount"]);
    let pool = full_pool(d.word_count());
    let mut s = WordleSolver::create(true, &d, pool);
    let target: usize = 4;
    for _ in 0..10 {
        let g = s.get_guess().unwrap();
        // every guess in hard mode is drawn from the current candidates
        assert!(s.possible_answers.contains(&(g as u16)));
        if g == target {
            return;
        }
        s.update(g, get_clue(&d, g, target));
    }
    panic!("session did not finish");
}

#[test]
fn contradictory_clue_reported() {
    let d = dict_of(&[b"aaaaa", b"bbbbb"]);
    let pool = full_pool(d.word_count());
    let mut s = WordleSolver::create(false, &d, pool);
    // no answer can mark every letter of "aaaaa" present-elsewhere
    let impossible = Clue([
        CluePart::Y,
        CluePart::Y,
        CluePart::Y,
        CluePart::Y,
        CluePart::Y,
    ]);
    s.update(0, impossible);
    assert_eq!(s.possible_answers.len(), 0);
    assert_eq!(s.get_guess(), Err(SolverError::ContradictoryClue));
}

#[test]
fn end_to_end_crane_terminates_quickly() {
    let d = dict_of(&[b"crane", b"slate", b"crate", b"adieu", b"aural", b"mount"]);
    let pool = full_pool(d.word_count());
    let r = run_solver_with_target(false, &d, pool, String::from("crane")).unwrap();
    assert!(!r.is_empty());
    assert!(r.len() <= 7);
    assert_eq!(r.last().unwrap(), "crane");
}

#[test]
fn unknown_target_is_rejected_not_guessed() {
    let d = dict_of(&[b"crane", b"slate"]);
    let pool = full_pool(d.word_count());
    assert!(run_solver_with_target(false, &d, pool.clone(), String::from("zzzzz")).is_none());
    // a dictionary word outside the answer pool is rejected too
    let narrow: Vec<u16> = vec![0];
    assert!(run_solver_with_target(false, &d, narrow, String::from("slate")).is_none());
}

#[test]
fn every_target_solved_once_each() {
    let d = dict_of(&[b"crane", b"slate", b"crate", b"adieu", b"aural", b"mount"]);
    let pool = full_pool(d.word_count());
    let mut results: Vec<(u16, Vec<usize>)> = Vec::new();
    for t in &pool {
        let s = WordleSolver::create(false, &d, pool.clone());
        results.push((*t, solve_for_target(&d, *t, s)));
    }
    // one sequence per configured target, none missing, none doubled
    assert_eq!(results.len(), pool.len());
    for (i, (t, guesses)) in results.iter().enumerate() {
        assert_eq!(*t as usize, i);
        assert_eq!(*guesses.last().unwrap(), *t as usize);
        // the game stops at the first hit: no earlier guess is the target
        for g in &guesses[..guesses.len() - 1] {
            assert_ne!(*g, *t as usize);
        }
    }
}

#[test]
fn scoring_prefers_splitting_guesses() {
    // rows for "aaaaa" and "aaaab" split the three candidates into three
    // singleton buckets (squared sizes sum 3); the row for "ccccc" leaves
    // {aaaaa, aaaab} together (squared sizes sum 5), so it scores worse
    let d = dict_of(&[b"aaaaa", b"aaaab", b"ccccc"]);
    let pool = full_pool(d.word_count());
    let mut s = WordleSolver::create(false, &d, pool);
    let g = s.get_guess().unwrap();
    // of the two equally scored splitters the last one scanned wins
    assert_eq!(g, 1);
}

#[test]
fn ties_go_to_last_scanned_word() {
    // all three rows split the candidates into singleton buckets, so all
    // scores tie and the documented rule picks the last word
    let d = dict_of(&[b"aaaaa", b"bbbbb", b"abbbb"]);
    let pool = full_pool(d.word_count());
    let mut s = WordleSolver::create(false, &d, pool);
    assert_eq!(s.get_guess().unwrap(), 2);
}

#[test]
fn solo_candidate_returned_without_scoring() {
    let d = dict_of(&[b"crane", b"slate", b"crate"]);
    let pool: Vec<u16> = vec![1];
    let mut s = WordleSolver::create(false, &d, pool);
    assert_eq!(s.get_guess(), Ok(1));
}
