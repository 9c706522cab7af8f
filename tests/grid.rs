use kryss::{parse_grid, Board, ConstructionError, Dictionary, Orientation, State};

const GRID: &str = "# a small grid\n\
R,0,1,3,a\n\
  D,1,0,3,b=XAX  \n\
\n\
R,0,4,\n\
2,c\n\
S,R,3,4,1,D,5,0,2=OK\n";

#[test]
fn parse_reads_every_form() {
    let ws = parse_grid(GRID).unwrap();
    assert_eq!(ws.len(), 5);
    assert_eq!(ws[0].key.as_deref(), Some("a"));
    assert_eq!(ws[1].candidates, vec!["XAX".to_string()]);
    assert!(ws[1].placed);
    assert_eq!((ws[2].x, ws[2].y, ws[2].length), (0, 4, 2));
    assert_eq!(ws[2].key.as_deref(), Some("c"));
    assert!(ws[3].key.is_none());
    assert_eq!(ws[3].o, Orientation::Right);
    assert_eq!(ws[4].o, Orientation::Down);
    assert_eq!(ws[4].candidates, vec!["OK".to_string()]);
}

#[test]
fn parse_reports_the_bad_line() {
    assert!(parse_grid("R,0,0,3\nQ,1,1,1\n").err() == Some(ConstructionError::BadLine(1)));
    assert!(parse_grid("# x\nS,R,0,0\n").err() == Some(ConstructionError::BadLine(1)));
    assert!(parse_grid("S,R,0,0,3,X,1,1,1\n").err() == Some(ConstructionError::BadLine(0)));
    assert_eq!(parse_grid("").unwrap().len(), 0);
}

#[test]
fn board_text_round_trip() {
    let mut d = Dictionary::new();
    d.add_word("a", "CAT");
    let b = Board::from_text(GRID, "g.txt".to_string(), &d).unwrap();
    assert!(b.state == State::Unsolved);
    assert_eq!(b.filename, "g.txt");
    let text = b.to_text();
    assert_eq!(text, "R,0,1,3,a\nD,1,0,3,b=XAX\nR,0,4,2,c\nS,R,3,4,1,D,5,0,2=OK\n");
    let again = Board::from_text(&text, "g.txt".to_string(), &d).unwrap();
    assert_eq!(again.to_text(), text);
}

#[test]
fn board_text_without_solution() {
    let d = Dictionary::new();
    let b = Board::from_text("R,0,0,2,k\n", String::new(), &d).unwrap();
    assert_eq!(b.to_text(), "R,0,0,2,k\n\n");
}

#[test]
fn from_text_refuses_conflicts() {
    let d = Dictionary::new();
    let r = Board::from_text("R,0,0,3\nR,0,1,3\n", String::new(), &d);
    assert!(r.err() == Some(ConstructionError::Conflicting(0, 1)));
}
