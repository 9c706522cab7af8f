use kryss::{Orientation, Word};

fn slot(parts: &[&str]) -> Word {
    Word::from_parts(parts).unwrap()
}

#[test]
fn orientation_families() {
    assert!(Orientation::Right.is_horizontal());
    assert!(Orientation::Left.is_horizontal());
    assert!(Orientation::Down.is_vertical());
    assert!(Orientation::Up.is_vertical());
    assert!(!Orientation::Right.is_vertical());
    assert!(Orientation::Left.is_reversed());
    assert!(Orientation::Up.is_reversed());
    assert!(!Orientation::Right.is_reversed());
    assert!(!Orientation::Down.is_reversed());
    assert!(Orientation::Right.same_or_opposite_direction(&Orientation::Left));
    assert!(Orientation::Up.same_or_opposite_direction(&Orientation::Down));
    assert!(!Orientation::Right.same_or_opposite_direction(&Orientation::Down));
}

#[test]
fn bounding_boxes() {
    let r = slot(&["R", "2", "3", "4"]);
    assert_eq!((r.xmin(), r.xmax(), r.ymin(), r.ymax()), (2, 5, 3, 3));
    let l = slot(&["L", "5", "3", "4"]);
    assert_eq!((l.xmin(), l.xmax(), l.ymin(), l.ymax()), (2, 5, 3, 3));
    let d = slot(&["D", "2", "3", "4"]);
    assert_eq!((d.xmin(), d.xmax(), d.ymin(), d.ymax()), (2, 2, 3, 6));
    let u = slot(&["U", "2", "6", "4"]);
    assert_eq!((u.xmin(), u.xmax(), u.ymin(), u.ymax()), (2, 2, 3, 6));
}

#[test]
fn positions_walk_in_reading_order() {
    let l = slot(&["L", "5", "3", "4"]);
    assert_eq!(l.position_at_index(0), (5, 3));
    assert_eq!(l.position_at_index(3), (2, 3));
    let u = slot(&["U", "2", "6", "4"]);
    assert_eq!(u.position_at_index(1), (2, 5));
    let d = slot(&["D", "2", "3", "4"]);
    assert_eq!(d.position_at_index(2), (2, 5));
    assert!(d.position_in_word(2, 6));
    assert!(!d.position_in_word(2, 7));
    assert!(!d.position_in_word(3, 4));
}

#[test]
fn crossing_is_symmetric() {
    let a = slot(&["R", "0", "1", "3", "a"]);
    let b = slot(&["D", "1", "0", "3", "b"]);
    let c = slot(&["D", "5", "0", "3", "c"]);
    let e = slot(&["R", "0", "4", "3", "e"]);
    for (x, y) in [(&a, &b), (&a, &c), (&b, &c), (&a, &e), (&b, &e)] {
        assert_eq!(x.is_crossing(y), y.is_crossing(x));
    }
    assert!(a.is_crossing(&b));
    assert!(!a.is_crossing(&c));
    assert!(!a.is_crossing(&e));
}

#[test]
fn reversed_slots_cross() {
    let a = slot(&["L", "4", "2", "5"]);
    let b = slot(&["U", "1", "3", "4"]);
    assert!(a.is_crossing(&b));
    assert!(b.is_crossing(&a));
}

#[test]
fn conflicts_need_an_empty_cell() {
    let a = slot(&["R", "0", "1", "3"]);
    // touching end to end across the other's axis
    let t = slot(&["D", "3", "0", "3"]);
    assert!(a.is_conflicting(&t));
    assert!(t.is_conflicting(&a));
    // one empty column between them
    let far = slot(&["D", "4", "0", "3"]);
    assert!(!a.is_conflicting(&far));
    // corner touch only
    let corner = slot(&["R", "3", "2", "2"]);
    assert!(!a.is_conflicting(&corner));
    // crossing slots do not conflict
    let x = slot(&["D", "1", "0", "3"]);
    assert!(!a.is_conflicting(&x));
    // parallel slots on adjacent lines conflict
    let below = slot(&["R", "0", "2", "3"]);
    assert!(a.is_conflicting(&below));
    // parallel slots on one line form one run
    let next = slot(&["R", "3", "1", "2"]);
    assert!(!a.is_conflicting(&next));
}

#[test]
fn conflicts_at_the_grid_edge() {
    let a = slot(&["R", "0", "0", "3"]);
    let b = slot(&["D", "0", "1", "2"]);
    assert!(a.is_conflicting(&b));
    let c = slot(&["D", "0", "2", "2"]);
    assert!(!a.is_conflicting(&c));
}

#[test]
fn from_parts_reads_all_forms() {
    let w = slot(&["R", "1", "2", "5"]);
    assert_eq!(w.o, Orientation::Right);
    assert_eq!((w.x, w.y, w.length), (1, 2, 5));
    assert!(w.key.is_none());
    assert!(w.candidates.is_empty());
    assert!(!w.placed);

    let w = slot(&["D", "0", "0", "3=ABC"]);
    assert_eq!(w.length, 3);
    assert!(w.key.is_none());
    assert_eq!(w.candidates, vec!["ABC".to_string()]);
    assert!(w.placed);

    let w = slot(&["U", "4", "7", "3", "animal"]);
    assert_eq!(w.key.as_deref(), Some("animal"));
    assert!(!w.placed);

    let w = slot(&["L", "4", "7", "3", "animal=CAT"]);
    assert_eq!(w.key.as_deref(), Some("animal"));
    assert_eq!(w.candidates, vec!["CAT".to_string()]);
    assert!(w.placed);

    let w = slot(&["R", "+1", "2", "4"]);
    assert_eq!(w.x, 1);
}

#[test]
fn from_parts_rejects_malformed() {
    assert!(Word::from_parts(&["X", "1", "2", "3"]).is_none());
    assert!(Word::from_parts(&["R", "a", "2", "3"]).is_none());
    assert!(Word::from_parts(&["R", "1", "-2", "3"]).is_none());
    assert!(Word::from_parts(&["R", "1", "2"]).is_none());
    assert!(Word::from_parts(&["R", "1", "2", ""]).is_none());
    assert!(Word::from_parts(&["R", "1", "2", "3=", "k"]).is_none());
    assert!(Word::from_parts(&["R", "1", "2", "99999999999999999999999"]).is_none());
}

#[test]
fn well_formedness() {
    assert!(slot(&["R", "0", "0", "3=ABC"]).is_well_formed());
    assert!(!slot(&["R", "0", "0", "3=ABCD"]).is_well_formed());
    assert!(!slot(&["R", "0", "0", "0"]).is_well_formed());
    assert!(!slot(&["L", "1", "0", "3"]).is_well_formed());
    assert!(slot(&["L", "2", "0", "3"]).is_well_formed());
}

#[test]
fn place_and_unplace_a_slot() {
    let mut w = slot(&["R", "0", "0", "3", "k"]);
    w.candidates = vec!["ONE".to_string()];
    assert!(w.has_one_candidate());
    w.place(None);
    assert!(w.placed);
    assert_eq!(w.char_at(1), 'N');
    w.place(Some("TWO".to_string()));
    assert_eq!(w.candidates, vec!["TWO".to_string()]);
    w.unplace();
    assert!(!w.placed);
    assert!(w.is_missing());
    assert!(!w.has_candidates());
    assert!(!w.is_solution());
    assert!(slot(&["R", "0", "0", "3"]).is_solution());
}

#[test]
fn word_iter_gives_cells_and_letters() {
    let w = slot(&["L", "2", "0", "3=ABC"]);
    let mut it = w.iter();
    assert_eq!(it.next(), Some((2, 0, 'A')));
    assert_eq!(it.next(), Some((1, 0, 'B')));
    assert_eq!(it.next(), Some((0, 0, 'C')));
    assert_eq!(it.next(), None);
    let free = slot(&["D", "0", "0", "2"]);
    let mut it = free.iter();
    assert_eq!(it.next(), Some((0, 0, '.')));
    assert_eq!(it.next(), Some((0, 1, '.')));
    assert_eq!(it.next(), None);
}

#[test]
fn word_text_round_trip() {
    assert_eq!(slot(&["R", "10", "2", "3", "k=ABC"]).to_text(), "R,10,2,3,k=ABC");
    assert_eq!(slot(&["U", "0", "7", "1", "key"]).to_text(), "U,0,7,1,key");
    assert_eq!(slot(&["D", "3", "4", "2=XY"]).to_text(), "D,3,4,2=XY");
    assert_eq!(slot(&["L", "5", "4", "2"]).to_text(), "L,5,4,2");
}
