use softmacs::reader::{tokenize, Token};
use softmacs::v0::{init, Error};

fn show_one(lisp: &softmacs::v0::V0, p: softmacs::heap::Gc) -> String {
    let mut buf = String::new();
    lisp.show(p, &mut buf).unwrap();
    buf
}

#[test]
fn round_trip_list() {
    let mut lisp = init(64);
    let xs = lisp.read("(a b c)").unwrap();
    assert_eq!(xs.len(), 1);
    assert_eq!(show_one(&lisp, xs[0]), "(a b c)");
}

#[test]
fn dotted_pair_shows_star() {
    let mut lisp = init(64);
    let a = lisp.symbol(String::from("a")).unwrap();
    let b = lisp.symbol(String::from("b")).unwrap();
    let p = lisp.pair(a, b).unwrap();
    assert_eq!(show_one(&lisp, p), "(a * b)");
}

#[test]
fn empty_list_literal() {
    let mut lisp = init(64);
    let xs = lisp.read("()").unwrap();
    assert_eq!(xs.len(), 1);
    assert_eq!(show_one(&lisp, xs[0]), "()");
}

#[test]
fn literal_list() {
    let mut lisp = init(64);
    let xs = lisp.read("(#t #f foo)").unwrap();
    assert_eq!(xs.len(), 1);
    assert_eq!(show_one(&lisp, xs[0]), "(#t #f foo)");
}

#[test]
fn unmatched_close_paren() {
    let mut lisp = init(64);
    assert!(matches!(lisp.read(")"), Err(Error::Read)));
}

#[test]
fn unknown_literal() {
    let mut lisp = init(64);
    assert!(matches!(lisp.read("#bad"), Err(Error::Read)));
}

#[test]
fn capacity_one_overflow() {
    let mut lisp = init(1);
    lisp.unit().unwrap();
    assert!(matches!(lisp.unit(), Err(Error::Space)));
}

#[test]
fn bare_literals() {
    let mut lisp = init(64);
    let xs = lisp.read("# #t #f").unwrap();
    assert_eq!(xs.len(), 3);
    assert_eq!(show_one(&lisp, xs[0]), "()");
    assert_eq!(show_one(&lisp, xs[1]), "#t");
    assert_eq!(show_one(&lisp, xs[2]), "#f");
}

#[test]
fn nested_lists() {
    let mut lisp = init(64);
    let xs = lisp.read("((a) (b c))").unwrap();
    assert_eq!(xs.len(), 1);
    assert_eq!(show_one(&lisp, xs[0]), "((a) (b c))");
}

#[test]
fn unclosed_paren_returns_inner_values() {
    // the reader keeps the innermost pending values as top-level results
    let mut lisp = init(64);
    let xs = lisp.read("(a b").unwrap();
    assert_eq!(xs.len(), 2);
    assert_eq!(show_one(&lisp, xs[0]), "a");
    assert_eq!(show_one(&lisp, xs[1]), "b");
}

#[test]
fn dot_is_an_ordinary_symbol() {
    // there is no dot syntax: "." reads as a plain three-element list
    let mut lisp = init(64);
    let xs = lisp.read("(a . b)").unwrap();
    assert_eq!(xs.len(), 1);
    assert_eq!(show_one(&lisp, xs[0]), "(a . b)");
}

#[test]
fn multiple_top_level_values() {
    let mut lisp = init(64);
    let xs = lisp.read("a (b) c").unwrap();
    assert_eq!(xs.len(), 3);
    assert_eq!(show_one(&lisp, xs[0]), "a");
    assert_eq!(show_one(&lisp, xs[1]), "(b)");
    assert_eq!(show_one(&lisp, xs[2]), "c");
}

#[test]
fn read_fails_with_space_when_heap_too_small() {
    // "(a)" needs three slots: the symbol, the unit terminator, one pair
    let mut lisp = init(2);
    assert!(matches!(lisp.read("(a)"), Err(Error::Space)));
    let mut lisp3 = init(3);
    assert!(lisp3.read("(a)").is_ok());
}

#[test]
fn tokenize_splits_runs() {
    let src: Vec<char> = "( ab))".chars().collect();
    let tokens = tokenize(&src);
    assert_eq!(
        tokens,
        vec![
            Token::Lparen,
            Token::Space(vec![' ']),
            Token::Symbol(vec!['a', 'b']),
            Token::Rparen,
            Token::Rparen,
        ]
    );
}

#[test]
fn tokenize_keeps_whitespace_extent() {
    let src: Vec<char> = "a \t\r\nb".chars().collect();
    let tokens = tokenize(&src);
    assert_eq!(
        tokens,
        vec![
            Token::Symbol(vec!['a']),
            Token::Space(vec![' ', '\t', '\r', '\n']),
            Token::Symbol(vec!['b']),
        ]
    );
}

#[test]
fn nested_dotted_pairs_show() {
    let mut lisp = init(64);
    let a = lisp.symbol(String::from("a")).unwrap();
    let b = lisp.symbol(String::from("b")).unwrap();
    let c = lisp.symbol(String::from("c")).unwrap();
    let inner = lisp.pair(b, c).unwrap();
    let outer = lisp.pair(a, inner).unwrap();
    assert_eq!(show_one(&lisp, outer), "(a * (b * c))");
}

#[test]
fn whitespace_is_insignificant() {
    let mut lisp = init(64);
    let xs = lisp.read("  ( a\tb )\r\n").unwrap();
    assert_eq!(xs.len(), 1);
    assert_eq!(show_one(&lisp, xs[0]), "(a b)");
}
