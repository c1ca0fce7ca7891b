use softmacs::heap::{Closure, Gc, Heap, NativeTag, Node, Object, Proc};
use softmacs::v0::{guard, init, Error};

#[test]
fn allocate_and_dereference() {
    let mut heap = Heap::with_capacity(4);
    let p = heap.put(Object::Unit).unwrap();
    assert!(heap.get(p).unwrap().is_unit());
}

#[test]
fn dereference_fabricated_pointer_fails() {
    let heap = Heap::with_capacity(4);
    let bogus = Gc { index: 99, timestamp: 0 };
    assert!(matches!(heap.get(bogus), Err(Error::Pointer)));
    let empty = Gc { index: 0, timestamp: 0 };
    assert!(matches!(heap.get(empty), Err(Error::Pointer)));
}

#[test]
fn stale_pointer_fails_after_collection() {
    // a pointer whose slot a collection reclaims must keep failing, even
    // after the slot is reallocated
    let mut heap = Heap::with_capacity(4);
    let a = heap.put(Object::Symbol(String::from("a"))).unwrap();
    let b = heap.put(Object::Bool(true)).unwrap();
    let reclaimed = heap.collect(&vec![b]).unwrap();
    assert_eq!(reclaimed, 1);
    assert!(matches!(heap.get(a), Err(Error::Pointer)));
    assert!(heap.get(b).is_ok());
    // the freed slot is reused by the next allocation
    let c = heap.put(Object::Unit).unwrap();
    assert_eq!(c.index, a.index);
    assert!(matches!(heap.get(a), Err(Error::Pointer)));
    assert!(heap.get(c).is_ok());
}

#[test]
fn collector_keeps_everything_reachable() {
    let mut lisp = init(16);
    let x = lisp.symbol(String::from("x")).unwrap();
    let y = lisp.symbol(String::from("y")).unwrap();
    let p = lisp.pair(x, y).unwrap();
    let z = lisp.symbol(String::from("z")).unwrap();
    let reclaimed = lisp.heap.collect(&vec![p]).unwrap();
    assert_eq!(reclaimed, 1);
    // the pair and both fields survive with their content
    match lisp.heap.get(p).unwrap() {
        Object::Pair(pv) => {
            assert_eq!(pv.fst, x);
            assert_eq!(pv.snd, y);
        },
        _ => panic!("pair expected"),
    }
    match lisp.heap.get(x).unwrap() {
        Object::Symbol(name) => assert_eq!(name.as_str(), "x"),
        _ => panic!("symbol expected"),
    }
    assert!(lisp.heap.get(y).is_ok());
    // the garbage symbol is gone
    assert!(matches!(lisp.heap.get(z), Err(Error::Pointer)));
}

#[test]
fn collect_twice_reclaims_nothing_more() {
    // idempotent sweep: same roots, no intervening allocation
    let mut lisp = init(16);
    let x = lisp.symbol(String::from("x")).unwrap();
    let y = lisp.symbol(String::from("y")).unwrap();
    let p = lisp.pair(x, y).unwrap();
    let _garbage = lisp.symbol(String::from("dead")).unwrap();
    let first = lisp.heap.collect(&vec![p]).unwrap();
    assert_eq!(first, 1);
    let second = lisp.heap.collect(&vec![p]).unwrap();
    assert_eq!(second, 0);
    assert!(lisp.heap.get(p).is_ok());
}

#[test]
fn collect_with_no_roots_reclaims_all() {
    let mut heap = Heap::with_capacity(8);
    heap.put(Object::Unit).unwrap();
    heap.put(Object::Bool(false)).unwrap();
    heap.put(Object::Symbol(String::from("s"))).unwrap();
    let reclaimed = heap.collect(&Vec::new()).unwrap();
    assert_eq!(reclaimed, 3);
}

#[test]
fn collect_from_stale_root_is_a_pointer_error() {
    let mut heap = Heap::with_capacity(4);
    let a = heap.put(Object::Unit).unwrap();
    assert_eq!(heap.collect(&vec![a]).unwrap(), 0);
    let b = heap.put(Object::Unit).unwrap();
    // a collection that keeps nothing reclaims `a`
    assert_eq!(heap.collect(&vec![b]).unwrap(), 1);
    assert!(matches!(heap.collect(&vec![a]), Err(Error::Pointer)));
}

#[test]
fn mark_from_invalid_root_is_a_pointer_error() {
    let mut heap = Heap::with_capacity(4);
    let bogus = Gc { index: 0, timestamp: 7 };
    assert!(matches!(heap.mark(bogus), Err(Error::Pointer)));
}

#[test]
fn sweep_without_mark_reclaims_everything() {
    let mut heap = Heap::with_capacity(4);
    heap.put(Object::Unit).unwrap();
    heap.put(Object::Bool(true)).unwrap();
    assert_eq!(heap.sweep(), 2);
    assert_eq!(heap.sweep(), 0);
}

#[test]
fn mark_preserves_content_until_sweep() {
    let mut heap = Heap::with_capacity(4);
    let a = heap.put(Object::Bool(true)).unwrap();
    heap.mark(a).unwrap();
    // a marked slot still dereferences with its stamp
    match heap.get(a).unwrap() {
        Object::Bool(b) => assert!(*b),
        _ => panic!("bool expected"),
    }
    assert_eq!(heap.sweep(), 0);
    assert!(heap.get(a).is_ok());
}

#[test]
fn list_cache_agrees_with_traversal() {
    // proper and dotted chains of depth 0 through 5: the cached flag equals
    // what a from-scratch walk of the rest chain finds
    fn walk_is_proper(lisp: &softmacs::v0::V0, mut p: Gc) -> bool {
        loop {
            match lisp.heap.get(p).unwrap() {
                Object::Unit => return true,
                Object::Pair(pv) => {
                    p = pv.snd;
                },
                _ => return false,
            }
        }
    }
    for depth in 0..6usize {
        // proper list of `depth + 1` elements
        let mut lisp = init(64);
        let mut tail = lisp.unit().unwrap();
        for _ in 0..=depth {
            let e = lisp.symbol(String::from("e")).unwrap();
            tail = lisp.pair(e, tail).unwrap();
        }
        match lisp.heap.get(tail).unwrap() {
            Object::Pair(pv) => {
                assert!(pv.is_list);
                let rest = pv.snd;
                assert!(walk_is_proper(&lisp, rest));
            },
            _ => panic!("pair expected"),
        }
        // dotted chain of the same depth, ending in a symbol
        let mut dotted = init(64);
        let mut tail = dotted.symbol(String::from("end")).unwrap();
        for _ in 0..=depth {
            let e = dotted.symbol(String::from("e")).unwrap();
            tail = dotted.pair(e, tail).unwrap();
        }
        match dotted.heap.get(tail).unwrap() {
            Object::Pair(pv) => {
                assert!(!pv.is_list);
                let rest = pv.snd;
                assert!(!walk_is_proper(&dotted, rest));
            },
            _ => panic!("pair expected"),
        }
    }
}

#[test]
fn pair_with_stale_field_is_a_pointer_error() {
    let mut lisp = init(8);
    let a = lisp.unit().unwrap();
    let b = lisp.unit().unwrap();
    lisp.heap.collect(&vec![b]).unwrap();
    assert!(matches!(lisp.pair(a, b), Err(Error::Pointer)));
    assert!(matches!(lisp.pair(b, a), Err(Error::Pointer)));
    assert!(lisp.pair(b, b).is_ok());
}

#[test]
fn show_procedure_is_opaque() {
    let mut lisp = init(8);
    let p = lisp
        .heap
        .put(Object::Proc(Proc::Native(NativeTag::Not)))
        .unwrap();
    let mut buf = String::new();
    lisp.show(p, &mut buf).unwrap();
    assert_eq!(buf, "<procedure>");
}

#[test]
fn show_stale_pointer_fails_and_keeps_buffer() {
    let mut lisp = init(8);
    let a = lisp.unit().unwrap();
    lisp.heap.collect(&Vec::new()).unwrap();
    let mut buf = String::from("kept");
    assert!(matches!(lisp.show(a, &mut buf), Err(Error::Pointer)));
    assert_eq!(buf, "kept");
}

#[test]
fn node_predicates() {
    assert!(Node::Empty.is_none());
    assert!(!Node::Empty.is_some());
    assert!(!Node::Empty.is_mark());
    let occupied = Node::Occupied(Object::Unit, 0);
    assert!(occupied.is_some());
    assert!(!occupied.is_none());
    let marked = Node::Marked(Object::Unit, 0);
    assert!(marked.is_mark());
    assert!(!marked.is_some());
}

#[test]
fn guard_reports_failed_checks() {
    assert!(guard(true).is_ok());
    assert!(matches!(guard(false), Err(Error::Guard)));
}

#[test]
fn object_is_unit_predicate() {
    assert!(Object::Unit.is_unit());
    assert!(!Object::Bool(true).is_unit());
    assert!(!Object::Symbol(String::from("u")).is_unit());
}

#[test]
fn collector_follows_procedure_references() {
    // closures reference four values, a re-apply wraps one more: all survive
    let mut heap = Heap::with_capacity(16);
    let a = heap.put(Object::Unit).unwrap();
    let b = heap.put(Object::Bool(true)).unwrap();
    let c = heap.put(Object::Symbol(String::from("c"))).unwrap();
    let d = heap.put(Object::Unit).unwrap();
    let clo = heap
        .put(Object::Proc(Proc::Closure(Closure { pattern: a, body: b, lexical: c, dynamic: d })))
        .unwrap();
    let re = heap.put(Object::Proc(Proc::Reapply(clo))).unwrap();
    let garbage = heap.put(Object::Unit).unwrap();
    assert_eq!(heap.collect(&vec![re]).unwrap(), 1);
    for p in [a, b, c, d, clo, re] {
        assert!(heap.get(p).is_ok());
    }
    assert!(matches!(heap.get(garbage), Err(Error::Pointer)));
}
