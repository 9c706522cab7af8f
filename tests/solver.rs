use kryss::{Board, ConstructionError, Dictionary, State, Word, WordStyle};

fn slot(parts: &[&str]) -> Word {
    Word::from_parts(parts).unwrap()
}

fn words_of(b: &Board, i: usize) -> Vec<String> {
    b.words[i].candidates.clone()
}

fn board(words: Vec<Word>, d: &Dictionary) -> Board {
    Board::from_words(words, "grid.txt".to_string(), d).unwrap()
}

#[test]
fn crossing_pair_unsolvable_when_letters_disagree() {
    let mut d = Dictionary::new();
    d.add_word("a", "CAT");
    d.add_word("a", "DOG");
    d.add_word("b", "CAR");
    d.add_word("b", "COW");
    // offset 1 of A shares a cell with offset 0 of B
    let mut b = board(vec![slot(&["R", "0", "1", "3", "a"]), slot(&["D", "1", "1", "3", "b"])], &d);
    assert_eq!(b.crossings[0], vec![(1, 1, 0)]);
    assert_eq!(b.crossings[1], vec![(0, 0, 1)]);
    assert!(b.solve_repeated(&d));
    assert!(b.state == State::Ambiguous);
    b.place(0, Some("CAT".to_string()), &d);
    assert!(b.changed);
    assert!(words_of(&b, 1).is_empty());
    assert!(b.solve_repeated(&d));
    assert!(b.state == State::Unsolvable);
}

#[test]
fn crossing_pair_solved_when_letters_align() {
    let mut d = Dictionary::new();
    d.add_word("a", "CAT");
    d.add_word("b", "CAR");
    d.add_word("b", "COW");
    // offset 1 of A shares a cell with offset 1 of B
    let mut b = board(vec![slot(&["R", "0", "1", "3", "a"]), slot(&["D", "1", "0", "3", "b"])], &d);
    assert_eq!(b.crossings[0], vec![(1, 1, 1)]);
    assert!(b.solve_repeated(&d));
    assert!(b.state == State::Solved);
    assert!(b.words[0].placed && b.words[1].placed);
    assert_eq!(words_of(&b, 0), vec!["CAT"]);
    assert_eq!(words_of(&b, 1), vec!["CAR"]);
}

#[test]
fn isolated_slot_with_one_candidate_is_solved() {
    let mut d = Dictionary::new();
    d.add_word("k", "SUN");
    let mut b = board(vec![slot(&["R", "0", "0", "3", "k"])], &d);
    assert!(b.state == State::Unsolved);
    assert!(b.solve_repeated(&d));
    assert!(b.words[0].placed);
    assert_eq!(words_of(&b, 0), vec!["SUN"]);
    assert!(b.state == State::Solved);
}

#[test]
fn isolated_slot_without_candidates_is_unsolvable() {
    let d = Dictionary::new();
    let mut b = board(vec![slot(&["R", "0", "0", "3", "k"])], &d);
    assert!(b.solve_repeated(&d));
    assert!(!b.words[0].placed);
    assert!(b.state == State::Unsolvable);
}

#[test]
fn contradicting_neighbours_roll_back_one() {
    let mut d = Dictionary::new();
    d.add_word("s", "ABA");
    d.add_word("s", "CCC");
    d.add_word("n1", "XA");
    d.add_word("n1", "XB");
    // two placed slots on one line share cell (1,1) of `s` and disagree there
    let ws = vec![
        slot(&["R", "0", "1", "3", "s"]),
        slot(&["D", "1", "0", "2", "n1=XA"]),
        slot(&["U", "1", "2", "2=YB"]),
    ];
    let mut b = board(ws, &d);
    assert_eq!(b.get_hints(0), ".B.");
    assert_eq!(words_of(&b, 0), vec!["ABA"]);
    assert!(b.solve_repeated(&d));
    assert!(b.state == State::Solved);
    assert_eq!(words_of(&b, 0), vec!["ABA"]);
    assert_eq!(words_of(&b, 1), vec!["XB"]);
    assert_eq!(words_of(&b, 2), vec!["YB"]);
}

#[test]
fn rollback_regrows_candidates() {
    let mut d = Dictionary::new();
    for w in ["CAT", "DOG", "COT"] {
        d.add_word("a", w);
    }
    d.add_word("b", "XAX");
    d.add_word("b", "YOY");
    let mut b = board(vec![slot(&["R", "0", "1", "3", "a"]), slot(&["D", "1", "0", "3", "b"])], &d);
    let before = words_of(&b, 0);
    assert_eq!(before, vec!["CAT", "DOG", "COT"]);
    b.place(1, Some("XAX".to_string()), &d);
    assert_eq!(words_of(&b, 0), vec!["CAT"]);
    assert_eq!(b.get_hints(0), ".A.");
    b.unplace(1, &d);
    assert!(!b.words[1].placed);
    assert_eq!(words_of(&b, 0), before);
    assert_eq!(words_of(&b, 1), vec!["XAX", "YOY"]);
}

#[test]
fn placing_over_a_placed_neighbour_releases_it() {
    let mut d = Dictionary::new();
    d.add_word("a", "CAT");
    d.add_word("a", "COT");
    d.add_word("b", "XAX");
    d.add_word("b", "XOX");
    let mut b = board(vec![slot(&["R", "0", "1", "3", "a=CAT"]), slot(&["D", "1", "0", "3", "b"])], &d);
    assert_eq!(words_of(&b, 1), vec!["XAX"]);
    b.place(1, Some("XAX".to_string()), &d);
    b.place(0, Some("COT".to_string()), &d);
    // b disagreed with the new value of a and was released, then refreshed
    assert!(!b.words[1].placed);
    assert_eq!(words_of(&b, 1), vec!["XOX"]);
    assert!(b.solve_repeated(&d));
    assert!(b.state == State::Solved);
}

#[test]
fn commit_only_narrows_without_rollback() {
    let mut d = Dictionary::new();
    for w in ["CAT", "COT", "CUT"] {
        d.add_word("a", w);
    }
    d.add_word("b", "XAX");
    let mut b = board(vec![slot(&["R", "0", "1", "3", "a"]), slot(&["D", "1", "0", "3", "b"])], &d);
    let before = words_of(&b, 0);
    b.place(1, None, &d);
    let after = words_of(&b, 0);
    assert!(after.len() <= before.len());
    assert!(after.iter().all(|w| before.contains(w)));
    assert_eq!(after, vec!["CAT"]);
}

#[test]
fn refresh_twice_changes_nothing() {
    let mut d = Dictionary::new();
    for w in ["CAT", "COT", "DOG"] {
        d.add_word("a", w);
    }
    d.add_word("b", "XOX");
    let mut b = board(vec![slot(&["R", "0", "1", "3", "a"]), slot(&["D", "1", "0", "3", "b=XOX"])], &d);
    b.refresh_candidates(&d);
    let once: Vec<Vec<String>> = b.words.iter().map(|w| w.candidates.clone()).collect();
    b.refresh_candidates(&d);
    let twice: Vec<Vec<String>> = b.words.iter().map(|w| w.candidates.clone()).collect();
    assert_eq!(once, twice);
    assert_eq!(once[0], vec!["COT", "DOG"]);
}

#[test]
fn solver_leaves_no_single_candidate_free() {
    let mut d = Dictionary::new();
    d.add_word("a", "CAT");
    d.add_word("b", "AXE");
    d.add_word("b", "AYE");
    d.add_word("c", "EGG");
    d.add_word("c", "EMU");
    let ws = vec![
        slot(&["R", "0", "0", "3", "a"]),
        slot(&["D", "1", "0", "3", "b"]),
        slot(&["R", "1", "2", "3", "c"]),
    ];
    let mut b = board(ws, &d);
    assert!(b.solve_repeated(&d));
    for w in &b.words {
        assert!(w.placed || w.candidates.len() != 1);
    }
    assert!(b.words[0].placed);
    assert!(b.state == State::Ambiguous);
}

#[test]
fn conflicting_slots_are_refused() {
    let d = Dictionary::new();
    let ws = vec![slot(&["R", "0", "1", "3"]), slot(&["R", "0", "2", "3"])];
    assert!(Board::from_words(ws, String::new(), &d).err() == Some(ConstructionError::Conflicting(0, 1)));
    let ws = vec![slot(&["R", "0", "1", "3"]), slot(&["L", "0", "5", "3"])];
    assert!(Board::from_words(ws, String::new(), &d).err() == Some(ConstructionError::Malformed(1)));
}

#[test]
fn crossing_offsets_meet_in_one_cell() {
    let d = Dictionary::new();
    let ws = vec![
        slot(&["L", "4", "2", "5"]),
        slot(&["U", "1", "3", "4"]),
        slot(&["D", "3", "0", "3"]),
    ];
    let b = board(ws, &d);
    for a in 0..b.words.len() {
        for &(o, ai, oi) in &b.crossings[a] {
            assert_eq!(b.words[a].position_at_index(ai), b.words[o].position_at_index(oi));
            assert!(b.words[o].is_crossing(&b.words[a]));
        }
    }
    assert_eq!(b.crossings[0].len(), 2);
    assert_eq!((b.width, b.height), (5, 4));
}

#[test]
fn state_counts_only_free_slots() {
    let mut d = Dictionary::new();
    d.add_word("a", "ONE");
    d.add_word("a", "TWO");
    let mut b = board(vec![slot(&["R", "0", "0", "3", "a"]), slot(&["R", "0", "2", "3=SUN"])], &d);
    assert!(b.solve_repeated(&d));
    assert!(b.state == State::Ambiguous);
    b.place(0, Some("TWO".to_string()), &d);
    assert!(b.solve_repeated(&d));
    assert!(b.state == State::Solved);
}

#[test]
fn word_lines_and_styles() {
    let mut d = Dictionary::new();
    d.add_word("a", "CAT");
    d.add_word("a", "COT");
    let mut b = board(
        vec![slot(&["R", "0", "1", "3", "a"]), slot(&["D", "1", "0", "3=XAX"]), slot(&["R", "5", "9", "2", "z"])],
        &d,
    );
    assert_eq!(b.format_word(0), "[0] a = .A. ?");
    assert_eq!(b.format_word(1), "[1] XAX");
    assert_eq!(b.format_word(2), "[2] z = .. ?");
    assert!(b.word_style(0) == WordStyle::Plain);
    assert!(b.word_style(2) == WordStyle::Missing);
    b.unplace(1, &d);
    assert_eq!(b.format_word(1), "[1] ... ?");
    assert!(b.word_style(0) == WordStyle::Ambiguous);
    b.place(0, Some("COT".to_string()), &d);
    assert_eq!(b.format_word(0), "[0] a = COT");
}

#[test]
fn endless_releases_stop_the_solver() {
    let mut d = Dictionary::new();
    d.add_word("x", ".");
    d.add_word("y", "AQ");
    // `y` and the solution slot cover the one cell of `x`; the solution slot
    // shows the wildcard there, so `x` and `y` keep releasing each other.
    let ws = vec![
        slot(&["R", "1", "1", "1", "x"]),
        slot(&["D", "1", "0", "2", "y=AQ"]),
        slot(&["U", "1", "2", "2=B."]),
    ];
    let mut b = board(ws, &d);
    assert_eq!(words_of(&b, 0), vec!["."]);
    assert!(!b.solve_repeated(&d));
    assert!(b.state == State::Unsolved);
}

#[test]
fn releases_lists_disagreeing_neighbours() {
    let mut d = Dictionary::new();
    d.add_word("a", "CAT");
    let b = board(vec![slot(&["R", "0", "1", "3", "a"]), slot(&["D", "1", "0", "3=XAX"])], &d);
    assert_eq!(b.releases(0, "COT"), vec![1]);
    assert!(b.releases(0, "CAT").is_empty());
}
