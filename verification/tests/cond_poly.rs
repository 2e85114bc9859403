use kolmogorov::languages::arith::NAT;
use kolmogorov::languages::cond_poly::{
    CaseList, CondPrim, SemList, SumList, ADD, AND, CASE, CASES, COND, DEF, EQZ, EVAL, LEFT, MUL,
    NULL, ORELSE, POLY, POS, SUB, TAKEN, UNIT,
};
use kolmogorov::languages::poly::{Mono, Order, Sum};
use kolmogorov::{
    analyze, has_type, search, Analysis, Cond, CondPolyLang, CondPolySems, Identifier, Language, Program,
    Reduction, Term, Type, Value,
};

const X: Identifier = 23;
const Y: Identifier = 24;

fn lang() -> CondPolyLang {
    CondPolyLang
}

fn poly_type() -> Type {
    Type::ground(POLY)
}

fn k(c: i32) -> Sum {
    Sum::from_constant(c)
}

fn x() -> Sum {
    Sum::from_variable(X)
}

fn y() -> Sum {
    Sum::from_variable(Y)
}

fn canonical(s: CondPolySems) -> Analysis<CondPolySems> {
    Analysis::Canonical(s)
}

fn sem(a: Analysis<CondPolySems>) -> CondPolySems {
    match a {
        Analysis::Canonical(s) => s,
        Analysis::Unique => panic!("a canonical analysis is expected, not a unique one"),
        Analysis::Malformed => panic!("a canonical analysis is expected, not a malformed one"),
    }
}

fn sums(items: Vec<Sum>) -> SumList {
    let mut l = SumList::Nil;
    for p in items.into_iter().rev() {
        l = SumList::Cons(p, Box::new(l));
    }
    l
}

fn sems(items: Vec<CondPolySems>) -> SemList {
    let mut l = SemList::Nil;
    for s in items.into_iter().rev() {
        l = SemList::Cons(Box::new(s), Box::new(l));
    }
    l
}

fn is(a: Analysis<CondPolySems>, expected: CondPolySems) -> bool {
    sem(a).same(&expected)
}

fn apply(fun: Analysis<CondPolySems>, arg: Analysis<CondPolySems>) -> Analysis<CondPolySems> {
    lang().sapp(fun, arg, &poly_type())
}

fn prim(v: Identifier) -> Analysis<CondPolySems> {
    lang().svar(v, &poly_type())
}

fn poly(p: Sum) -> Analysis<CondPolySems> {
    canonical(CondPolySems::Poly(p))
}

#[test]
fn names_are_constants_primitives_or_variables() {
    assert!(is(prim(UNIT), CondPolySems::Poly(k(1))));
    assert!(is(prim(NULL), CondPolySems::Poly(k(0))));
    for v in [ADD, SUB, MUL, CASE, EVAL, ORELSE, EQZ, POS, AND, DEF] {
        assert!(is(prim(v), CondPolySems::Appl(v, SemList::Nil)));
    }
    assert!(is(prim(X), CondPolySems::Poly(x())));
    assert!(lang().sval(&Value::Int(3), &poly_type()).malformed());
}

#[test]
fn arithmetic_on_polynomials() {
    let first = apply(prim(ADD), poly(x()));
    assert!(is(first, CondPolySems::Appl(ADD, sems(vec![CondPolySems::Poly(x())]))));
    let sum = apply(apply(prim(ADD), poly(x())), poly(k(1)));
    assert!(is(sum, CondPolySems::Poly(x().plus(&k(1)))));
    let difference = apply(apply(prim(SUB), poly(x())), poly(y()));
    assert!(is(difference, CondPolySems::Poly(x().plus(&y().scaled(-1, &Mono::One)))));
    let nothing = apply(apply(prim(SUB), poly(x())), poly(x()));
    assert!(is(nothing, CondPolySems::Poly(Sum::Zero)));
    let product = apply(apply(prim(MUL), poly(x())), poly(x().plus(&k(2))));
    assert!(is(product, CondPolySems::Poly(x().times(&x()).plus(&x().plus(&x())))));
    // The second argument must be a polynomial too.
    assert!(apply(apply(prim(ADD), poly(x())), prim(ADD)).malformed());
    assert!(apply(poly(x()), poly(x())).malformed());
    assert!(apply(Analysis::Unique, poly(x())).malformed());
    assert!(apply(prim(ADD), Analysis::Unique).malformed());
}

#[test]
fn eval_and_orelse_take_one_argument() {
    assert!(is(apply(prim(EVAL), poly(x())), CondPolySems::Poly(x())));
    let program = apply(prim(ORELSE), poly(x()));
    assert!(is(
        program,
        CondPolySems::Prog(Program { cases: CaseList::Nil, default: x() })
    ));
    assert!(apply(prim(ORELSE), prim(ADD)).malformed());
    // With an argument collected already there is no meaning.
    let one = canonical(CondPolySems::Appl(EVAL, sems(vec![CondPolySems::Poly(x())])));
    assert!(apply(one, poly(x())).malformed());
    let one = canonical(CondPolySems::Appl(ORELSE, sems(vec![CondPolySems::Poly(x())])));
    assert!(apply(one, poly(x())).malformed());
}

#[test]
fn a_test_of_a_polynomial_is_a_condition() {
    let cond = apply(prim(EQZ), poly(x()));
    assert!(is(cond, CondPolySems::Case(Cond { eqzs: sums(vec![x()]), poss: SumList::Nil })));
    let cond = apply(prim(POS), poly(y()));
    assert!(is(cond, CondPolySems::Case(Cond { eqzs: SumList::Nil, poss: sums(vec![y()]) })));
    let cond = apply(prim(EQZ), poly(k(0)));
    assert!(is(cond, CondPolySems::Case(Cond { eqzs: sums(vec![k(0)]), poss: SumList::Nil })));
    // Only a polynomial is tested, and a test takes no second argument.
    assert!(apply(prim(POS), prim(ADD)).malformed());
    assert!(apply(apply(prim(EQZ), poly(x())), poly(k(0))).malformed());
    let one = canonical(CondPolySems::Appl(EQZ, sems(vec![CondPolySems::Poly(x())])));
    assert!(apply(one, poly(x())).malformed());
    let two = canonical(CondPolySems::Appl(
        POS,
        sems(vec![CondPolySems::Poly(x()), CondPolySems::Poly(x())]),
    ));
    assert!(apply(two, poly(x())).malformed());
}

#[test]
fn what_has_no_meaning_is_malformed_and_no_failure() {
    assert!(apply(Analysis::Malformed, poly(x())).malformed());
    assert!(apply(prim(ADD), Analysis::Malformed).malformed());
    assert!(apply(Analysis::Malformed, Analysis::Malformed).malformed());
    assert!(apply(Analysis::Unique, Analysis::Unique).malformed());
    assert!(lang().slam(X, Analysis::Malformed, &Type::fun(poly_type(), poly_type())).malformed());
    assert!(lang().slam(X, Analysis::Unique, &Type::fun(poly_type(), poly_type())).malformed());
    assert!(lang().sval(&Value::Int(1), &poly_type()).malformed());
}

#[test]
fn a_conjunction_of_two_tests_is_a_condition() {
    let lang = CondPolyLang;
    let t = app2(var(AND), app(var(EQZ), var(NULL)), app(var(POS), var(UNIT)));
    let a = analyze(&lang, &t, &vec![], &Type::ground(COND));
    assert!(matches!(a, Analysis::Canonical(CondPolySems::Case(_))));
    let program = app(
        app2(var(CASE), app(var(EQZ), var(NULL)), var(UNIT)),
        app(var(ORELSE), var(NULL)),
    );
    let a = analyze(&lang, &program, &vec![], &Type::ground(CASES));
    assert!(matches!(a, Analysis::Canonical(CondPolySems::Prog(_))));
}

fn cond(eqzs: Vec<Sum>, poss: Vec<Sum>) -> Cond {
    Cond { eqzs: sums(eqzs), poss: sums(poss) }
}

#[test]
fn conjunction_puts_the_polynomials_together_in_order() {
    let c = cond(vec![y(), k(1)], vec![x()]);
    let d = cond(vec![x()], vec![k(2), y()]);
    let first = apply(prim(AND), canonical(CondPolySems::Case(d)));
    let both = apply(first, canonical(CondPolySems::Case(c)));
    assert!(is(
        both,
        CondPolySems::Case(cond(vec![k(1), x(), y()], vec![k(2), x(), y()]))
    ));
    let first = apply(prim(AND), poly(x()));
    assert!(apply(first, canonical(CondPolySems::Case(cond(vec![], vec![])))).malformed());
}

#[test]
fn polynomials_are_ordered_for_sorting() {
    assert_eq!(k(1).order(&k(2)), Order::Less);
    assert_eq!(k(2).order(&k(1)), Order::Greater);
    assert_eq!(k(7).order(&x()), Order::Less);
    assert_eq!(x().order(&y()), Order::Less);
    assert_eq!(x().plus(&k(1)).order(&x()), Order::Less);
    assert_eq!(x().order(&x()), Order::Equal);
    assert_eq!(Sum::Zero.order(&k(-5)), Order::Less);
    let l = sums(vec![y(), x(), k(3), x(), Sum::Zero]).sorted();
    assert!(l.same(&sums(vec![Sum::Zero, k(3), x(), x(), y()])));
}

#[test]
fn a_case_is_added_at_the_end() {
    let c = cond(vec![x()], vec![]);
    let d = cond(vec![], vec![y()]);
    let one = Program {
        cases: CaseList::Cons(d.copy(), k(5), Box::new(CaseList::Nil)),
        default: k(0),
    };
    let fun = canonical(CondPolySems::Appl(
        CASE,
        sems(vec![CondPolySems::Case(c.copy()), CondPolySems::Poly(k(7))]),
    ));
    let more = apply(fun, canonical(CondPolySems::Prog(one)));
    let expected = Program {
        cases: CaseList::Cons(
            d,
            k(5),
            Box::new(CaseList::Cons(c, k(7), Box::new(CaseList::Nil))),
        ),
        default: k(0),
    };
    assert!(is(more, CondPolySems::Prog(expected)));
    // A polynomial where the program is wanted.
    let fun = canonical(CondPolySems::Appl(
        CASE,
        sems(vec![CondPolySems::Case(cond(vec![], vec![])), CondPolySems::Poly(k(7))]),
    ));
    assert!(apply(fun, poly(x())).malformed());
    // Other primitives go on collecting.
    let fun = canonical(CondPolySems::Appl(
        ADD,
        sems(vec![CondPolySems::Case(cond(vec![], vec![])), CondPolySems::Poly(k(7))]),
    ));
    let collected = sem(apply(fun, poly(x())));
    assert!(matches!(collected, CondPolySems::Appl(ADD, _)));
}

#[test]
fn a_definition_puts_the_polynomial_in_the_place_of_the_variable() {
    let body = Program {
        cases: CaseList::Cons(
            cond(vec![x()], vec![x().plus(&y())]),
            x().times(&x()),
            Box::new(CaseList::Nil),
        ),
        default: x().plus(&k(1)),
    };
    let f = canonical(CondPolySems::Func(X, Box::new(CondPolySems::Prog(body))));
    let with = apply(apply(prim(DEF), poly(y().plus(&k(2)))), f);
    let p = y().plus(&k(2));
    let expected = Program {
        cases: CaseList::Cons(
            cond(vec![p.copy()], vec![p.plus(&y())]),
            p.times(&p),
            Box::new(CaseList::Nil),
        ),
        default: p.plus(&k(1)),
    };
    assert!(is(with, CondPolySems::Prog(expected)));
    // The body of the function must be a program.
    let f = canonical(CondPolySems::Func(X, Box::new(CondPolySems::Poly(x()))));
    assert!(apply(apply(prim(DEF), poly(y())), f).malformed());
    assert!(apply(apply(prim(DEF), poly(y())), poly(x())).malformed());
}

#[test]
fn substitution_in_polynomials() {
    // x^2 + 3xy + 1 with y + 2 for x
    let p = x().times(&x()).plus(&x().times(&y()).scaled(3, &Mono::One)).plus(&k(1));
    let q = y().plus(&k(2));
    let expected = q.times(&q).plus(&q.times(&y()).scaled(3, &Mono::One)).plus(&k(1));
    assert!(p.replaced(X, &q).same(&expected));
    assert!(p.replaced(1, &q).same(&p));
    assert!(x().replaced(X, &Sum::Zero).same(&Sum::Zero));
    assert!(k(4).replaced(X, &q).same(&k(4)));
}

#[test]
fn abstractions_mean_functions() {
    let f = lang().slam(X, poly(x()), &poly_type());
    assert!(is(f, CondPolySems::Func(X, Box::new(CondPolySems::Poly(x())))));
    assert!(lang().slam(X, Analysis::Unique, &poly_type()).malformed());
}

#[test]
fn meanings_are_compared_in_depth() {
    let a = CondPolySems::Appl(ADD, sems(vec![CondPolySems::Poly(x())]));
    assert!(lang().same(&a, &lang().copy(&a)));
    assert!(!lang().same(&a, &CondPolySems::Appl(SUB, sems(vec![CondPolySems::Poly(x())]))));
    assert!(!lang().same(&a, &CondPolySems::Appl(ADD, sems(vec![CondPolySems::Poly(y())]))));
    assert!(!lang().same(&a, &CondPolySems::Appl(ADD, SemList::Nil)));
    assert!(!lang().same(&a, &CondPolySems::Poly(x())));
    let c = CondPolySems::Case(cond(vec![x()], vec![y()]));
    assert!(lang().same(&c, &lang().copy(&c)));
    assert!(!lang().same(&c, &CondPolySems::Case(cond(vec![y()], vec![x()]))));
}

fn num(n: i32) -> Term {
    Term::val(Value::Int(n))
}

fn truth(b: bool) -> Term {
    Term::val(Value::Bool(b))
}

fn var(x: Identifier) -> Term {
    Term::var(x)
}

fn app(f: Term, a: Term) -> Term {
    Term::app(f, a)
}

fn app2(f: Term, a: Term, b: Term) -> Term {
    app(app(f, a), b)
}

#[test]
fn the_rules_of_the_primitives() {
    assert_eq!(CondPrim::Plus.reduce(&vec![num(2), num(3)]), Some(num(5)));
    assert_eq!(CondPrim::Sub.reduce(&vec![num(2), num(3)]), Some(num(-1)));
    assert_eq!(CondPrim::Mult.reduce(&vec![num(2), num(3)]), Some(num(6)));
    assert_eq!(CondPrim::One.reduce(&vec![]), Some(num(1)));
    assert_eq!(CondPrim::Zero.reduce(&vec![]), Some(num(0)));
    let first = Term::lam(TAKEN, Term::lam(LEFT, var(TAKEN)));
    let second = Term::lam(TAKEN, Term::lam(LEFT, var(LEFT)));
    assert_eq!(CondPrim::Case.reduce(&vec![truth(true)]), Some(first));
    assert_eq!(CondPrim::Case.reduce(&vec![truth(false)]), Some(second));
    assert_eq!(CondPrim::Case.reduce(&vec![num(1)]), None);
    assert_eq!(CondPrim::Eval.reduce(&vec![num(4)]), Some(num(4)));
    assert_eq!(CondPrim::OrElse.reduce(&vec![num(4)]), Some(num(4)));
    assert_eq!(CondPrim::Eval.reduce(&vec![var(X)]), None);
    assert_eq!(CondPrim::Eqz.reduce(&vec![num(0)]), Some(truth(true)));
    assert_eq!(CondPrim::Eqz.reduce(&vec![num(3)]), Some(truth(false)));
    assert_eq!(CondPrim::Pos.reduce(&vec![num(3)]), Some(truth(true)));
    assert_eq!(CondPrim::Pos.reduce(&vec![num(0)]), Some(truth(false)));
    assert_eq!(CondPrim::Pos.reduce(&vec![num(-3)]), Some(truth(false)));
    assert_eq!(CondPrim::And.reduce(&vec![truth(true), truth(true)]), Some(truth(true)));
    assert_eq!(CondPrim::And.reduce(&vec![truth(true), truth(false)]), Some(truth(false)));
    assert_eq!(CondPrim::And.reduce(&vec![truth(true), num(1)]), None);
    assert_eq!(CondPrim::Def.reduce(&vec![num(1), var(X)]), Some(app(var(X), num(1))));
    assert_eq!(CondPrim::Def.reduce(&vec![num(1)]), None);
}

#[test]
fn programs_are_evaluated_case_by_case() {
    let ctxt = lang().context();
    // eval (case (pos (x - 3)) 10 (case (eqz (x - 3)) 20 (orelse 30)))
    let program = |x: i32| {
        let diff = || app2(var(SUB), num(x), num(3));
        let last = app(var(ORELSE), num(30));
        let inner = app(app2(var(CASE), app(var(EQZ), diff()), num(20)), last);
        let outer = app(app2(var(CASE), app(var(POS), diff()), num(10)), inner);
        app(var(EVAL), outer)
    };
    for (x, expected) in [(5, 10), (3, 20), (1, 30), (4, 10), (-7, 30)] {
        let mut t = program(x);
        assert!(t.exec_bounded(&ctxt, 1000));
        assert_eq!(t, num(expected));
    }
    // def 5 (v -> eval (orelse (v * v + 1)))
    let body = app(
        var(EVAL),
        app(var(ORELSE), app2(var(ADD), app2(var(MUL), var(X), var(X)), var(UNIT))),
    );
    let mut t = app2(var(DEF), num(5), Term::lam(X, body));
    assert!(t.exec_bounded(&ctxt, 1000));
    assert_eq!(t, num(26));
    // and (pos 1) (eqz 0)
    let mut t = app2(var(AND), app(var(POS), num(1)), app(var(EQZ), num(0)));
    assert!(t.exec_bounded(&ctxt, 1000));
    assert_eq!(t, truth(true));
}

#[test]
fn the_context_gives_every_primitive_its_type() {
    let ctxt = lang().context();
    assert_eq!(ctxt.len(), 12);
    let poly = poly_type;
    let cond = || Type::ground(COND);
    let cases = || Type::ground(CASES);
    let n = || Type::ground(NAT);
    let op = Type::fun(poly(), Type::fun(poly(), poly()));
    for v in [ADD, SUB, MUL] {
        assert_eq!(ctxt.get(v).unwrap().ty, op);
        assert_eq!(ctxt.get(v).unwrap().n_args, 2);
    }
    assert_eq!(ctxt.get(UNIT).unwrap().ty, poly());
    assert_eq!(ctxt.get(NULL).unwrap().n_args, 0);
    assert_eq!(
        ctxt.get(CASE).unwrap().ty,
        Type::fun(cond(), Type::fun(poly(), Type::fun(cases(), cases())))
    );
    assert_eq!(ctxt.get(CASE).unwrap().n_args, 1);
    assert_eq!(ctxt.get(EVAL).unwrap().ty, Type::fun(cases(), n()));
    assert_eq!(ctxt.get(ORELSE).unwrap().ty, Type::fun(poly(), cases()));
    assert_eq!(ctxt.get(EQZ).unwrap().ty, Type::fun(poly(), cond()));
    assert_eq!(ctxt.get(POS).unwrap().ty, Type::fun(poly(), cond()));
    assert_eq!(ctxt.get(AND).unwrap().ty, Type::fun(cond(), Type::fun(cond(), cond())));
    assert_eq!(
        ctxt.get(DEF).unwrap().ty,
        Type::fun(poly(), Type::fun(Type::fun(poly(), n()), n()))
    );
    let order: Vec<Identifier> = (0..12).map(|i| ctxt.entry(i).0).collect();
    assert_eq!(order, vec![ADD, SUB, MUL, UNIT, NULL, CASE, EVAL, ORELSE, EQZ, POS, AND, DEF]);
}

#[test]
fn polynomials_are_enumerated_once_each() {
    let lang = lang();
    let ctxt = lang.context();
    let mut found = Vec::new();
    let mut e = search(&lang, vec![], &poly_type(), 5);
    while let Some((t, a)) = e.next() {
        assert!(has_type(&t, &ctxt, &vec![], &poly_type()));
        found.push(sem(a));
    }
    // 1 + 1, 1 + 0, 0 + 0 and 0 - 1; every other sum, difference or product
    // of the constants is one of these.
    assert_eq!(found.len(), 4);
    for (i, s) in found.iter().enumerate() {
        for other in &found[..i] {
            assert!(!s.same(other));
        }
    }
    let wanted = [k(2), k(1), k(0), k(-1)];
    for w in wanted {
        assert!(found.iter().any(|s| s.same(&CondPolySems::Poly(w.copy()))));
    }
}

#[test]
fn programs_without_cases_are_enumerated() {
    let lang = lang();
    let n = Type::ground(NAT);
    // eval (orelse p) for a leaf p.
    let mut e = search(&lang, vec![], &n, 5);
    let mut count = 0;
    while let Some((t, a)) = e.next() {
        assert_eq!(t.node_count(), 5);
        assert!(matches!(sem(a), CondPolySems::Prog(_)));
        count += 1;
    }
    assert_eq!(count, 2);
}
