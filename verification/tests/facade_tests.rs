use softmacs::v0::init;
use softmacs::Lisp;

#[test]
fn trait_surface_reads_and_shows() {
    let mut lisp = init(64);
    let xs = Lisp::read(&mut lisp, "(x y)").unwrap();
    assert_eq!(xs.len(), 1);
    let mut buf = String::new();
    Lisp::show(&lisp, xs[0], &mut buf).unwrap();
    assert_eq!(buf, "(x y)");
}

#[test]
fn trait_constructors_build_values() {
    let mut lisp = init(64);
    let t = Lisp::t(&mut lisp).unwrap();
    let f = Lisp::f(&mut lisp).unwrap();
    let u = Lisp::unit(&mut lisp).unwrap();
    let s = Lisp::symbol(&mut lisp, String::from("sym")).unwrap();
    let inner = Lisp::pair(&mut lisp, s, u).unwrap();
    let inner2 = Lisp::pair(&mut lisp, f, inner).unwrap();
    let whole = Lisp::pair(&mut lisp, t, inner2).unwrap();
    let mut buf = String::new();
    Lisp::show(&lisp, whole, &mut buf).unwrap();
    assert_eq!(buf, "(#t #f sym)");
}

#[test]
fn unit_inside_list_prints_as_nil() {
    let mut lisp = init(64);
    let xs = lisp.read("(())").unwrap();
    assert_eq!(xs.len(), 1);
    let mut buf = String::new();
    lisp.show(xs[0], &mut buf).unwrap();
    assert_eq!(buf, "(())");
}

#[test]
fn symbols_share_no_slots() {
    let mut lisp = init(8);
    let a = lisp.symbol(String::from("same")).unwrap();
    let b = lisp.symbol(String::from("same")).unwrap();
    assert_ne!(a, b);
}
