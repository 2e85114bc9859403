use kolmogorov::languages::arith::{
    binary, number, polynomial_context, Arith, MINUS, MULT, ONE, PLUS, ZERO,
};
use kolmogorov::{BuiltIn, Context, Identifier, Reduction, Term, Type, Value, VarGen};

const X: Identifier = 23;
const Y: Identifier = 24;

fn var(x: Identifier) -> Term {
    Term::var(x)
}

fn lam(x: Identifier, b: Term) -> Term {
    Term::lam(x, b)
}

fn app(f: Term, a: Term) -> Term {
    Term::app(f, a)
}

fn num(n: i32) -> Term {
    Term::val(Value::Int(n))
}

fn app2(f: Term, a: Term, b: Term) -> Term {
    app(app(f, a), b)
}

fn full_context() -> Context<Arith> {
    let mut c = polynomial_context();
    c.insert(MINUS, BuiltIn::new(2, Arith::Minus, binary()));
    c
}

#[test]
fn context_finds_primitives_by_name() {
    let c = polynomial_context();
    assert_eq!(c.len(), 4);
    assert_eq!(c.entry(0).0, PLUS);
    assert_eq!(c.entry(3).0, ONE);
    let plus = c.get(PLUS).unwrap();
    assert_eq!(plus.n_args, 2);
    assert_eq!(plus.func, Arith::Plus);
    assert_eq!(plus.ty, binary());
    assert_eq!(c.get(ZERO).unwrap().ty, number());
    assert!(c.get(MINUS).is_none());
    let d = c.deep_clone();
    assert_eq!(d.len(), 4);
    assert_eq!(d.get(MULT).unwrap().func, Arith::Mult);
}

#[test]
fn context_keeps_the_first_primitive_of_a_name() {
    let mut c = polynomial_context();
    c.insert(PLUS, BuiltIn::new(2, Arith::Minus, binary()));
    assert_eq!(c.len(), 5);
    assert_eq!(c.get(PLUS).unwrap().func, Arith::Plus);
}

#[test]
fn arithmetic_rules_need_values() {
    assert_eq!(Arith::Plus.reduce(&vec![num(2), num(3)]), Some(num(5)));
    assert_eq!(Arith::Minus.reduce(&vec![num(2), num(3)]), Some(num(-1)));
    assert_eq!(Arith::Mult.reduce(&vec![num(4), num(3)]), Some(num(12)));
    assert_eq!(Arith::Zero.reduce(&vec![]), Some(num(0)));
    assert_eq!(Arith::One.reduce(&vec![]), Some(num(1)));
    assert_eq!(Arith::Plus.reduce(&vec![num(2), var(X)]), None);
    assert_eq!(Arith::Plus.reduce(&vec![num(2)]), None);
    assert_eq!(Arith::Plus.reduce(&vec![num(2), Term::val(Value::Bool(true))]), None);
    assert_eq!(Arith::One.reduce(&vec![num(2)]), None);
}

#[test]
fn arithmetic_wraps_around() {
    assert_eq!(Arith::Plus.reduce(&vec![num(i32::MAX), num(1)]), Some(num(i32::MIN)));
    assert_eq!(Arith::Minus.reduce(&vec![num(i32::MIN), num(1)]), Some(num(i32::MAX)));
    assert_eq!(Arith::Mult.reduce(&vec![num(65536), num(65536)]), Some(num(0)));
}

#[test]
fn exec_reduces_constants_and_operations() {
    let c = polynomial_context();
    let mut t = var(ONE);
    t.exec(&c);
    assert_eq!(t, num(1));

    let mut t = app2(var(PLUS), var(ONE), var(ONE));
    t.exec(&c);
    assert_eq!(t, num(2));

    // (1 + 1) * (1 + (1 + 1))
    let two = app2(var(PLUS), var(ONE), var(ONE));
    let three = app2(var(PLUS), var(ONE), two.clone());
    let mut t = app2(var(MULT), two, three);
    t.exec(&c);
    assert_eq!(t, num(6));
}

#[test]
fn exec_mixes_beta_and_primitives() {
    let c = full_context();
    // (x y -> x - y) 7 3
    let f = lam(X, lam(Y, app2(var(MINUS), var(X), var(Y))));
    let mut t = app2(f, num(7), num(3));
    t.exec(&c);
    assert_eq!(t, num(4));

    // (x -> x * x) (1 + 1)
    let sq = lam(X, app2(var(MULT), var(X), var(X)));
    let mut t = app(sq, app2(var(PLUS), var(ONE), var(ONE)));
    t.exec(&c);
    assert_eq!(t, num(4));
}

#[test]
fn exec_leaves_what_cannot_be_reduced() {
    let c = polynomial_context();
    let mut t = app2(var(PLUS), var(X), var(ONE));
    t.exec(&c);
    assert_eq!(t, app2(var(PLUS), var(X), num(1)));

    // Too few arguments: the arguments are still evaluated.
    let mut t = app(var(PLUS), var(ONE));
    t.exec(&c);
    assert_eq!(t, app(var(PLUS), num(1)));

    // An unknown name applied to something.
    let mut t = app(var(X), app2(var(PLUS), var(ONE), var(ONE)));
    t.exec(&c);
    assert_eq!(t, app(var(X), num(2)));
}

#[test]
fn exec_works_below_binders_and_respects_shadowing() {
    let c = polynomial_context();
    let mut t = lam(X, app2(var(PLUS), var(ONE), var(ONE)));
    t.exec(&c);
    assert_eq!(t, lam(X, num(2)));

    // A binder called like a primitive hides it.
    let mut t = lam(ONE, app2(var(PLUS), var(ONE), var(ZERO)));
    t.exec(&c);
    assert_eq!(t, lam(ONE, app2(var(PLUS), var(ONE), num(0))));
}

#[test]
fn exec_bounded_stops_after_the_limit() {
    let c = polynomial_context();
    let make = || app2(var(PLUS), var(ONE), var(ONE));
    // one -> 1, one -> 1, plus 1 1 -> 2: three steps.
    let mut t = make();
    assert!(!t.exec_bounded(&c, 0));
    assert_eq!(t, make());
    assert!(!t.evaluated(&c));
    let mut t = make();
    assert!(!t.exec_bounded(&c, 1));
    assert_eq!(t, app2(var(PLUS), num(1), var(ONE)));
    let mut t = make();
    assert!(!t.exec_bounded(&c, 2));
    assert_eq!(t, app2(var(PLUS), num(1), num(1)));
    let mut t = make();
    assert!(t.exec_bounded(&c, 3));
    assert_eq!(t, num(2));
    assert!(t.evaluated(&c));
    assert!(t.exec_bounded(&c, 0));
    let mut t = make();
    assert!(t.exec_bounded(&c, 40));
    assert_eq!(t, num(2));

    let half = lam(X, app(var(X), var(X)));
    let mut t = app(half.clone(), half.clone());
    assert!(!t.exec_bounded(&c, 30));
    assert_eq!(t, app(half.clone(), half));
}

#[test]
fn solve_evaluates_the_head_only() {
    let c = polynomial_context();
    let mut t = var(ONE);
    t.solve(&c);
    assert_eq!(t, num(1));

    // The arguments are not values yet, so the rule does not apply.
    let mut t = app2(var(PLUS), var(ONE), var(ONE));
    t.solve(&c);
    assert_eq!(t, app2(var(PLUS), var(ONE), var(ONE)));

    let mut t = app2(lam(X, lam(Y, app2(var(PLUS), var(X), var(Y)))), num(1), num(2));
    t.solve(&c);
    assert_eq!(t, num(3));

    let mut t = lam(X, app(lam(Y, var(Y)), var(X)));
    t.solve(&c);
    assert_eq!(t, lam(X, app(lam(Y, var(Y)), var(X))));
}

#[derive(Clone, Copy)]
enum Choice {
    IfZero,
}

impl Reduction for Choice {
    fn reduce(&self, args: &Vec<Term>) -> Option<Term> {
        match self {
            Choice::IfZero => match args[0].leaf_val() {
                Some(Value::Int(0)) => Some(lam(X, lam(Y, var(X)))),
                Some(_) => Some(lam(X, lam(Y, var(Y)))),
                None => None,
            },
        }
    }
}

#[test]
fn a_rule_may_answer_with_a_term_and_leave_branches_alone() {
    let n = Type::ground(1);
    let ty = Type::fun(n.clone(), Type::fun(n.clone(), Type::fun(n.clone(), n.clone())));
    let c = Context::new(vec![(500, BuiltIn::new(1, Choice::IfZero, ty))]);
    let half = lam(X, app(var(X), var(X)));
    let omega = app(half.clone(), half);
    // The branch that is not taken is never evaluated.
    let mut t = app(app2(var(500), num(0), num(7)), omega.clone());
    t.exec(&c);
    assert_eq!(t, num(7));
    let mut t = app(app2(var(500), num(1), omega), num(8));
    t.exec(&c);
    assert_eq!(t, num(8));
}

#[test]
fn head_and_spine() {
    let t = app2(var(PLUS), num(1), num(2));
    assert_eq!(*t.head(), var(PLUS));
    assert_eq!(*num(1).head(), num(1));
    assert_eq!(*app(lam(X, var(X)), num(1)).head(), lam(X, var(X)));
}

#[test]
fn var_gen_hands_out_the_least_free_name() {
    let mut g = VarGen::new();
    assert_eq!(g.small_var(), 0);
    assert_eq!(g.small_var(), 1);
    g.retire(2);
    assert_eq!(g.small_var(), 3);
    g.freshen(1);
    assert_eq!(g.small_var(), 1);
    assert_eq!(g.small_var(), 4);

    let c = Context::new(vec![
        (0, BuiltIn::new(0, Arith::Zero, number())),
        (2, BuiltIn::new(0, Arith::One, number())),
    ]);
    let mut g = c.vgen();
    assert_eq!(g.small_var(), 1);
    assert_eq!(g.small_var(), 3);
}

#[derive(Clone, Copy)]
enum Fib {
    Lte,
    Plus,
    Minus,
    One,
    Two,
    Prevs(i32),
}

fn fib(n: i32) -> i32 {
    if n <= 1 {
        n
    } else {
        fib(n - 1) + fib(n - 2)
    }
}

fn two_numbers(args: &Vec<Term>) -> Option<(i32, i32)> {
    match (args[0].leaf_val(), args[1].leaf_val()) {
        (Some(Value::Int(x)), Some(Value::Int(y))) => Some((x, y)),
        _ => None,
    }
}

impl Reduction for Fib {
    fn reduce(&self, args: &Vec<Term>) -> Option<Term> {
        match self {
            Fib::Lte => two_numbers(args).map(|(a, b)| {
                if a <= b {
                    lam(X, lam(Y, var(X)))
                } else {
                    lam(X, lam(Y, var(Y)))
                }
            }),
            Fib::Plus => two_numbers(args).map(|(a, b)| num(a + b)),
            Fib::Minus => two_numbers(args).map(|(a, b)| num(a - b)),
            Fib::One => Some(num(1)),
            Fib::Two => Some(num(2)),
            Fib::Prevs(k) => match args[0].leaf_val() {
                Some(Value::Int(c)) => Some(num(if 0 < c && c < *k { fib(c) } else { 0 })),
                _ => None,
            },
        }
    }
}

#[test]
fn the_recursion_of_fibonacci_is_accepted() {
    const LTE: Identifier = 600;
    const PLUS_: Identifier = 601;
    const MINUS_: Identifier = 602;
    const ONE_: Identifier = 603;
    const TWO_: Identifier = 604;
    const PREVS: Identifier = 610;
    let n = || Type::ground(1);
    let op = || Type::fun(n(), Type::fun(n(), n()));
    let limit = 8;
    let mut entries = vec![
        (LTE, BuiltIn::new(2, Fib::Lte, Type::fun(n(), Type::fun(n(), op())))),
        (PLUS_, BuiltIn::new(2, Fib::Plus, op())),
        (MINUS_, BuiltIn::new(2, Fib::Minus, op())),
        (ONE_, BuiltIn::new(0, Fib::One, n())),
        (TWO_, BuiltIn::new(0, Fib::Two, n())),
    ];
    for k in 1..limit {
        entries.push((PREVS + k as u64, BuiltIn::new(1, Fib::Prevs(k), Type::fun(n(), n()))));
    }
    let c = Context::new(entries);
    const F: Identifier = 5;
    const N: Identifier = 13;
    // f n -> lte n 1 1 (plus (f (minus n 1)) (f (minus n 2)))
    let back = |by: Identifier| app(var(F), app2(var(MINUS_), var(N), var(by)));
    let step = app2(var(PLUS_), back(ONE_), back(TWO_));
    let body = app(app(app2(var(LTE), var(N), var(ONE_)), var(ONE_)), step);
    let t = lam(F, lam(N, body));
    assert_eq!(t.node_count(), 27);
    for k in 1..limit {
        let mut program = app2(t.clone(), var(PREVS + k as u64), num(k));
        assert!(program.exec_bounded(&c, 10_000));
        assert_eq!(program, num(fib(k)));
    }
    // A term that adds without a base case is not.
    let wrong = lam(F, lam(N, app2(var(PLUS_), back(ONE_), back(TWO_))));
    let mut program = app2(wrong, var(PREVS + 1), num(1));
    assert!(program.exec_bounded(&c, 10_000));
    assert_ne!(program, num(fib(1)));
}
