use opt::cnf::{CNF, Literal};
use opt::text::{clause_to_text, parse_clause_from_line, read_cnf_from_text};

fn lit(i: i32) -> Literal {
    Literal { var: i.unsigned_abs() as usize, sign: i < 0 }
}

#[test]
fn literal_parsing() {
    assert_eq!(Literal::new("12").unwrap(), lit(12));
    assert_eq!(Literal::new("-3").unwrap(), lit(-3));
    assert!(Literal::new("x").is_err());
    assert!(Literal::new("").is_err());
    assert!(Literal::new("-").is_err());
    assert!(Literal::new("1 2").is_err());
}

#[test]
fn clause_line_parsing() {
    let c = parse_clause_from_line("1 -2 3").unwrap();
    assert_eq!(c, vec![lit(1), lit(-2), lit(3)]);
    assert!(parse_clause_from_line("1 - 3").is_err());
    assert_eq!(parse_clause_from_line("").unwrap(), Vec::<Literal>::new());
}

#[test]
fn display_format() {
    let mut c = CNF::new();
    c.add_clause(vec![lit(1), lit(-2)]);
    c.add_clause(vec![lit(3)]);
    let text = c.to_text();
    assert_eq!(String::from_utf8(text).unwrap(), "2\n1 -2\n3\n");
}

#[test]
fn parse_format() {
    let c = read_cnf_from_text("2\n1 -2\n3\n").unwrap();
    assert_eq!(c.get_clauses().len(), 2);
    assert_eq!(c.get_clauses()[0], vec![lit(1), lit(-2)]);
    assert_eq!(c.get_clauses()[1], vec![lit(3)]);
}

#[test]
fn parse_rejects_bad_input() {
    assert!(read_cnf_from_text("").is_err());
    assert!(read_cnf_from_text("x\n").is_err());
    assert!(read_cnf_from_text("2\n1\n").is_err());
    assert!(read_cnf_from_text("1\n1 y\n").is_err());
}

#[test]
fn parse_of_display_is_identity() {
    let mut c = CNF::new();
    c.add_clause(vec![lit(5), lit(-1)]);
    c.add_clause(vec![lit(-5), lit(2), lit(7)]);
    c.add_clause(vec![lit(10)]);
    let text = c.to_text();
    let s = String::from_utf8(text).unwrap();
    let back = read_cnf_from_text(&s).unwrap();
    assert_eq!(back.get_clauses(), c.get_clauses());
}

#[test]
fn clause_text_joins_with_spaces() {
    let out = clause_to_text(&vec![lit(1), lit(-22)]);
    assert_eq!(String::from_utf8(out).unwrap(), "1 -22");
}

#[test]
fn empty_cnf_round_trip() {
    let c = CNF::new();
    let s = String::from_utf8(c.to_text()).unwrap();
    assert_eq!(s, "0\n");
    let back = read_cnf_from_text(&s).unwrap();
    assert!(back.get_clauses().is_empty());
}

#[test]
fn parse_rejects_trailing_text() {
    assert!(read_cnf_from_text("1\n1 2\n3\n").is_err());
}

#[test]
fn plus_signed_literals_are_accepted() {
    assert_eq!(Literal::new("+3").unwrap(), lit(3));
    let c = parse_clause_from_line("+1 -2").unwrap();
    assert_eq!(c, vec![lit(1), lit(-2)]);
    assert!(Literal::new("+").is_err());
    assert!(Literal::new("+-3").is_err());
}
