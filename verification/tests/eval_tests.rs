use softmacs::eval::{apply, eval, evlis, exec};
use softmacs::heap::{Closure, Gc, NativeTag, Object, Proc};
use softmacs::v0::{init, Error, V0};

const FUEL: usize = 1000;

fn empty_env(lisp: &mut V0) -> Gc {
    let u = lisp.unit().unwrap();
    lisp.pair(u, u).unwrap()
}

/// An environment with the given lexical and dynamic bindings.
fn env_of(lisp: &mut V0, lexical: &[(&str, Gc)], dynamic: &[(&str, Gc)]) -> Gc {
    let mut chains = Vec::new();
    for bindings in [lexical, dynamic] {
        let mut chain = lisp.unit().unwrap();
        for (name, v) in bindings.iter().rev() {
            let s = lisp.symbol(String::from(*name)).unwrap();
            let b = lisp.pair(s, *v).unwrap();
            chain = lisp.pair(b, chain).unwrap();
        }
        chains.push(chain);
    }
    lisp.pair(chains[0], chains[1]).unwrap()
}

fn list1(lisp: &mut V0, a: Gc) -> Gc {
    let u = lisp.unit().unwrap();
    lisp.pair(a, u).unwrap()
}

fn list2(lisp: &mut V0, a: Gc, b: Gc) -> Gc {
    let t = list1(lisp, b);
    lisp.pair(a, t).unwrap()
}

fn native(lisp: &mut V0, tag: NativeTag) -> Gc {
    lisp.heap.put(Object::Proc(Proc::Native(tag))).unwrap()
}

fn show(lisp: &V0, v: Gc) -> String {
    let mut buf = String::new();
    lisp.show(v, &mut buf).unwrap();
    buf
}

#[test]
fn literals_evaluate_to_themselves() {
    let mut lisp = init(64);
    let env = empty_env(&mut lisp);
    let u = lisp.unit().unwrap();
    let t = lisp.t().unwrap();
    let f = lisp.f().unwrap();
    let p = native(&mut lisp, NativeTag::Not);
    assert_eq!(lisp.eval(u, env).unwrap(), u);
    assert_eq!(lisp.eval(t, env).unwrap(), t);
    assert_eq!(lisp.eval(f, env).unwrap(), f);
    assert_eq!(lisp.eval(p, env).unwrap(), p);
}

#[test]
fn symbol_lookup_lexical_then_dynamic() {
    let mut lisp = init(64);
    let t = lisp.t().unwrap();
    let f = lisp.f().unwrap();
    let env = env_of(&mut lisp, &[("x", t)], &[("x", f), ("y", f)]);
    let x = lisp.symbol(String::from("x")).unwrap();
    let y = lisp.symbol(String::from("y")).unwrap();
    let z = lisp.symbol(String::from("z")).unwrap();
    // the lexical chain shadows the dynamic one
    assert_eq!(lisp.eval(x, env).unwrap(), t);
    // the dynamic chain is reached when the lexical one has no binding
    assert_eq!(lisp.eval(y, env).unwrap(), f);
    // an unbound symbol is a lookup failure
    assert!(matches!(lisp.eval(z, env), Err(Error::Type)));
}

#[test]
fn application_evaluates_head_and_operands() {
    let mut lisp = init(64);
    let t = lisp.t().unwrap();
    let f = lisp.f().unwrap();
    let cell = lisp.pair(t, f).unwrap();
    let fst = native(&mut lisp, NativeTag::Fst);
    let env = env_of(&mut lisp, &[("first", fst), ("p", cell)], &[]);
    let head = lisp.symbol(String::from("first")).unwrap();
    let operand = lisp.symbol(String::from("p")).unwrap();
    let form = list1(&mut lisp, operand);
    let form = lisp.pair(head, form).unwrap();
    assert_eq!(lisp.eval(form, env).unwrap(), t);
}

#[test]
fn native_pair_fst_snd() {
    let mut lisp = init(64);
    let env = empty_env(&mut lisp);
    let t = lisp.t().unwrap();
    let f = lisp.f().unwrap();
    let mk = native(&mut lisp, NativeTag::Pair);
    let args = list2(&mut lisp, t, f);
    let cell = apply(mk, args, env, &mut lisp, FUEL).unwrap();
    match lisp.heap.get(cell).unwrap() {
        Object::Pair(pv) => {
            assert_eq!(pv.fst, t);
            assert_eq!(pv.snd, f);
        },
        _ => panic!("pair expected"),
    }
    let fst = native(&mut lisp, NativeTag::Fst);
    let snd = native(&mut lisp, NativeTag::Snd);
    let args = list1(&mut lisp, cell);
    assert_eq!(apply(fst, args, env, &mut lisp, FUEL).unwrap(), t);
    let args = list1(&mut lisp, cell);
    assert_eq!(apply(snd, args, env, &mut lisp, FUEL).unwrap(), f);
}

#[test]
fn native_booleans() {
    let mut lisp = init(64);
    let env = empty_env(&mut lisp);
    let t = lisp.t().unwrap();
    let f = lisp.f().unwrap();
    let not = native(&mut lisp, NativeTag::Not);
    let and = native(&mut lisp, NativeTag::And);
    let or = native(&mut lisp, NativeTag::Or);
    let args = list1(&mut lisp, t);
    let r = apply(not, args, env, &mut lisp, FUEL).unwrap();
    assert_eq!(show(&lisp, r), "#f");
    let args = list2(&mut lisp, t, f);
    let r = apply(and, args, env, &mut lisp, FUEL).unwrap();
    assert_eq!(show(&lisp, r), "#f");
    let args = list2(&mut lisp, f, t);
    let r = apply(or, args, env, &mut lisp, FUEL).unwrap();
    assert_eq!(show(&lisp, r), "#t");
    // a non-boolean argument is a shape error
    let u = lisp.unit().unwrap();
    let args = list1(&mut lisp, u);
    assert!(matches!(apply(not, args, env, &mut lisp, FUEL), Err(Error::Type)));
}

#[test]
fn evlis_evaluates_a_proper_list_in_order() {
    let mut lisp = init(64);
    let t = lisp.t().unwrap();
    let f = lisp.f().unwrap();
    let env = env_of(&mut lisp, &[("x", t), ("y", f)], &[]);
    let x = lisp.symbol(String::from("x")).unwrap();
    let y = lisp.symbol(String::from("y")).unwrap();
    let forms = list2(&mut lisp, x, y);
    let vals = evlis(forms, env, &mut lisp, FUEL).unwrap();
    assert_eq!(show(&lisp, vals), "(#t #f)");
    // the empty operand list evaluates to itself
    let u = lisp.unit().unwrap();
    assert_eq!(evlis(u, env, &mut lisp, FUEL).unwrap(), u);
}

#[test]
fn evlis_rejects_a_non_list_form() {
    let mut lisp = init(64);
    let env = empty_env(&mut lisp);
    let t = lisp.t().unwrap();
    assert!(matches!(evlis(t, env, &mut lisp, FUEL), Err(Error::Type)));
}

#[test]
fn applying_a_non_procedure_is_a_type_error() {
    let mut lisp = init(64);
    let env = empty_env(&mut lisp);
    let t = lisp.t().unwrap();
    let u = lisp.unit().unwrap();
    assert!(matches!(apply(t, u, env, &mut lisp, FUEL), Err(Error::Type)));
}

#[test]
fn closure_symbol_pattern_binds_whole_argument_list() {
    let mut lisp = init(64);
    let env = empty_env(&mut lisp);
    let u = lisp.unit().unwrap();
    let a = lisp.symbol(String::from("a")).unwrap();
    let c = lisp
        .heap
        .put(Object::Proc(Proc::Closure(Closure {
            pattern: a,
            body: a,
            lexical: u,
            dynamic: u,
        })))
        .unwrap();
    let t = lisp.t().unwrap();
    let args = list1(&mut lisp, t);
    // the symbol pattern is bound to the whole argument list
    assert_eq!(apply(c, args, env, &mut lisp, FUEL).unwrap(), args);
}

#[test]
fn closure_list_pattern_binds_elementwise() {
    let mut lisp = init(64);
    let env = empty_env(&mut lisp);
    let u = lisp.unit().unwrap();
    let a = lisp.symbol(String::from("a")).unwrap();
    let pattern = list1(&mut lisp, a);
    let c = lisp
        .heap
        .put(Object::Proc(Proc::Closure(Closure {
            pattern,
            body: a,
            lexical: u,
            dynamic: u,
        })))
        .unwrap();
    let t = lisp.t().unwrap();
    let args = list1(&mut lisp, t);
    assert_eq!(apply(c, args, env, &mut lisp, FUEL).unwrap(), t);
    // an arity mismatch is a shape error
    let t2 = lisp.t().unwrap();
    let args2 = list2(&mut lisp, t, t2);
    assert!(matches!(apply(c, args2, env, &mut lisp, FUEL), Err(Error::Type)));
}

#[test]
fn reapply_reenters_application() {
    let mut lisp = init(64);
    let env = empty_env(&mut lisp);
    let t = lisp.t().unwrap();
    let f = lisp.f().unwrap();
    let cell = lisp.pair(t, f).unwrap();
    let fst = native(&mut lisp, NativeTag::Fst);
    let re = lisp.heap.put(Object::Proc(Proc::Reapply(fst))).unwrap();
    let args = list1(&mut lisp, cell);
    assert_eq!(apply(re, args, env, &mut lisp, FUEL).unwrap(), t);
}

#[test]
fn reset_runs_its_thunk_and_shift_is_reserved() {
    let mut lisp = init(64);
    let env = empty_env(&mut lisp);
    let u = lisp.unit().unwrap();
    let xs = lisp.symbol(String::from("xs")).unwrap();
    let t = lisp.t().unwrap();
    let thunk = lisp
        .heap
        .put(Object::Proc(Proc::Closure(Closure {
            pattern: xs,
            body: t,
            lexical: u,
            dynamic: u,
        })))
        .unwrap();
    let reset = native(&mut lisp, NativeTag::Reset);
    let args = list1(&mut lisp, thunk);
    assert_eq!(apply(reset, args, env, &mut lisp, FUEL).unwrap(), t);
    let shift = native(&mut lisp, NativeTag::Shift);
    let args = list1(&mut lisp, thunk);
    assert!(matches!(apply(shift, args, env, &mut lisp, FUEL), Err(Error::Stub)));
}

#[test]
fn eval_native_reenters_evaluation() {
    let mut lisp = init(64);
    let env = empty_env(&mut lisp);
    let env2 = empty_env(&mut lisp);
    let ev = native(&mut lisp, NativeTag::Eval);
    let t = lisp.t().unwrap();
    let args = list2(&mut lisp, t, env2);
    assert_eq!(apply(ev, args, env, &mut lisp, FUEL).unwrap(), t);
}

#[test]
fn init_native_builds_a_fresh_empty_environment() {
    let mut lisp = init(64);
    let env = empty_env(&mut lisp);
    let ini = native(&mut lisp, NativeTag::Init);
    let noargs = lisp.unit().unwrap();
    let fresh = apply(ini, noargs, env, &mut lisp, FUEL).unwrap();
    match lisp.heap.get(fresh).unwrap() {
        Object::Pair(_) => {},
        _ => panic!("environment pair expected"),
    }
    // nothing is bound in it
    let z = lisp.symbol(String::from("z")).unwrap();
    assert!(matches!(lisp.eval(z, fresh), Err(Error::Type)));
}

#[test]
fn exhausted_budget_is_a_time_error() {
    let mut lisp = init(64);
    let env = empty_env(&mut lisp);
    let t = lisp.t().unwrap();
    assert!(matches!(eval(t, env, &mut lisp, 0), Err(Error::Time)));
}

#[test]
fn exec_hands_operands_unevaluated() {
    let mut lisp = init(64);
    let t = lisp.t().unwrap();
    let f = lisp.f().unwrap();
    let cell = lisp.pair(t, f).unwrap();
    let fst = native(&mut lisp, NativeTag::Fst);
    let env = env_of(&mut lisp, &[("first", fst), ("p", cell)], &[]);
    let head = lisp.symbol(String::from("first")).unwrap();
    // the operand is the pair value itself: the operative entry point hands
    // it over without evaluating, so the application still succeeds
    let operands = list1(&mut lisp, cell);
    let form = lisp.pair(head, operands).unwrap();
    assert_eq!(exec(form, env, &mut lisp, FUEL).unwrap(), t);
    // a symbol operand stays a symbol and is no pair for the primitive
    let operand = lisp.symbol(String::from("p")).unwrap();
    let operands = list1(&mut lisp, operand);
    let form = lisp.pair(head, operands).unwrap();
    assert!(matches!(exec(form, env, &mut lisp, FUEL), Err(Error::Type)));
    // a non-application form is a shape error
    assert!(matches!(exec(t, env, &mut lisp, FUEL), Err(Error::Type)));
}
