use kolmogorov::languages::arith::{number, MULT, ONE, PLUS, ZERO};
use kolmogorov::languages::poly::{Mono, Order, Sum};
use kolmogorov::{
    search, Analysis, Identifier, Language, PolySem, Polynomials, Term, Type, Value,
};

const A: Identifier = 0;
const B: Identifier = 1;
const X: Identifier = 23;
const Y: Identifier = 24;

fn mono(names: &[Identifier]) -> Mono {
    let mut m = Mono::One;
    for x in names.iter().rev() {
        m = Mono::Times(*x, Box::new(m));
    }
    m
}

fn sum(terms: &[(i32, &[Identifier])]) -> Sum {
    let mut p = Sum::Zero;
    for (c, names) in terms.iter().rev() {
        p = Sum::Plus(*c, mono(names), Box::new(p));
    }
    p
}

fn x() -> Sum {
    Sum::from_variable(X)
}

fn y() -> Sum {
    Sum::from_variable(Y)
}

fn k(c: i32) -> Sum {
    Sum::from_constant(c)
}

fn eq(a: &Sum, b: &Sum) -> bool {
    a.same(b)
}

#[test]
fn monomials_multiply_by_merging() {
    assert!(mono(&[X]).product(&mono(&[Y])).same(&mono(&[X, Y])));
    assert!(mono(&[Y]).product(&mono(&[X])).same(&mono(&[X, Y])));
    assert!(mono(&[X, Y]).product(&mono(&[X])).same(&mono(&[X, X, Y])));
    assert!(mono(&[]).product(&mono(&[X])).same(&mono(&[X])));
    assert!(mono(&[A, Y]).product(&mono(&[B, X])).same(&mono(&[A, B, X, Y])));
}

#[test]
fn monomials_are_ordered_name_by_name() {
    assert_eq!(mono(&[]).order(&mono(&[])), Order::Equal);
    assert_eq!(mono(&[]).order(&mono(&[X])), Order::Less);
    assert_eq!(mono(&[X]).order(&mono(&[])), Order::Greater);
    assert_eq!(mono(&[X]).order(&mono(&[Y])), Order::Less);
    assert_eq!(mono(&[X, Y]).order(&mono(&[X])), Order::Greater);
    assert_eq!(mono(&[X, Y]).order(&mono(&[Y])), Order::Less);
    assert_eq!(mono(&[X, Y]).order(&mono(&[X, Y])), Order::Equal);
    assert!(!mono(&[X]).same(&mono(&[X, X])));
    assert!(mono(&[X, X]).copy().same(&mono(&[X, X])));
}

#[test]
fn constants_and_variables() {
    assert!(eq(&k(0), &Sum::Zero));
    assert!(eq(&k(3), &sum(&[(3, &[])])));
    assert!(eq(&x(), &sum(&[(1, &[X])])));
    assert!(eq(&Sum::one_term(0, mono(&[X])), &Sum::Zero));
    assert!(!eq(&k(3), &k(4)));
    assert!(!eq(&x(), &y()));
    assert!(eq(&x().copy(), &x()));
}

#[test]
fn sums_merge_and_cancel() {
    assert!(eq(&x().plus(&k(1)), &sum(&[(1, &[]), (1, &[X])])));
    assert!(eq(&k(1).plus(&x()), &sum(&[(1, &[]), (1, &[X])])));
    assert!(eq(&x().plus(&x()), &sum(&[(2, &[X])])));
    assert!(eq(&x().plus(&y()).plus(&x()), &sum(&[(2, &[X]), (1, &[Y])])));
    assert!(eq(&k(0).plus(&x()), &x()));
    assert!(eq(&x().plus(&k(0)), &x()));
    let minus_x = x().scaled(-1, &Mono::One);
    assert!(eq(&minus_x, &sum(&[(-1, &[X])])));
    assert!(eq(&x().plus(&minus_x), &Sum::Zero));
    assert!(eq(&x().plus(&k(2)).plus(&minus_x), &k(2)));
}

#[test]
fn coefficients_wrap_around() {
    assert!(eq(&k(i32::MAX).plus(&k(1)), &k(i32::MIN)));
    assert!(eq(&k(65536).times(&k(65536)), &Sum::Zero));
    assert!(eq(&k(i32::MIN).plus(&k(i32::MIN)), &Sum::Zero));
}

#[test]
fn products_distribute() {
    // (x + 1)(x + 1) = 1 + 2x + x^2
    let p = x().plus(&k(1));
    assert!(eq(&p.times(&p), &sum(&[(1, &[]), (2, &[X]), (1, &[X, X])])));
    // (x + y)(x - y) = x^2 - y^2
    let minus_y = y().scaled(-1, &Mono::One);
    let q = x().plus(&y()).times(&x().plus(&minus_y));
    assert!(eq(&q, &sum(&[(1, &[X, X]), (-1, &[Y, Y])])));
    assert!(eq(&x().times(&k(0)), &Sum::Zero));
    assert!(eq(&k(0).times(&x()), &Sum::Zero));
    assert!(eq(&x().times(&k(1)), &x()));
    assert!(eq(&x().times(&y()), &y().times(&x())));
    assert!(eq(&x().times(&y()), &sum(&[(1, &[X, Y])])));
    // x * (y + 2) scaled by 3x
    assert!(eq(
        &y().plus(&k(2)).scaled(3, &mono(&[X])),
        &sum(&[(6, &[X]), (3, &[X, Y])])
    ));
}

#[test]
fn sums_and_products_agree_whatever_the_order() {
    let ps = [k(0), k(1), k(-3), x(), y(), x().plus(&k(2)), x().times(&y()).plus(&y())];
    for a in &ps {
        for b in &ps {
            assert!(eq(&a.plus(b), &b.plus(a)));
            assert!(eq(&a.times(b), &b.times(a)));
            for c in &ps {
                assert!(eq(&a.plus(b).plus(c), &a.plus(&b.plus(c))));
                assert!(eq(&a.times(b).times(c), &a.times(&b.times(c))));
                assert!(eq(&a.times(&b.plus(c)), &a.times(b).plus(&a.times(c))));
            }
        }
    }
}

fn poly(a: Analysis<PolySem>) -> Sum {
    match a {
        Analysis::Canonical(PolySem::Poly(p)) => p,
        other => panic!("a polynomial is expected, not {:?}", meaning_name(&other)),
    }
}

fn meaning_name(a: &Analysis<PolySem>) -> &'static str {
    match a {
        Analysis::Canonical(PolySem::Poly(_)) => "a polynomial",
        Analysis::Canonical(PolySem::Op(_)) => "an operation",
        Analysis::Canonical(PolySem::Partial(_, _)) => "an operation with one argument",
        Analysis::Canonical(PolySem::Func(_, _)) => "a function",
        Analysis::Unique => "unique",
        Analysis::Malformed => "malformed",
    }
}

#[test]
fn the_hooks_of_the_polynomials() {
    let lang = Polynomials;
    let n = number();
    assert!(eq(&poly(lang.svar(ZERO, &n)), &k(0)));
    assert!(eq(&poly(lang.svar(ONE, &n)), &k(1)));
    assert!(eq(&poly(lang.svar(X, &n)), &x()));
    assert!(eq(&poly(lang.sval(&Value::Int(7), &n)), &k(7)));
    assert!(lang.sval(&Value::Bool(true), &n).malformed());
    assert_eq!(meaning_name(&lang.svar(PLUS, &n)), "an operation");
    let plus_x = lang.sapp(lang.svar(PLUS, &n), lang.svar(X, &n), &n);
    assert_eq!(meaning_name(&plus_x), "an operation with one argument");
    let sum = lang.sapp(plus_x, lang.svar(ONE, &n), &n);
    assert!(eq(&poly(sum), &x().plus(&k(1))));
    let times_x = lang.sapp(lang.svar(MULT, &n), lang.svar(X, &n), &n);
    let square = lang.sapp(times_x, lang.svar(X, &n), &n);
    assert!(eq(&poly(square), &x().times(&x())));
    // A polynomial applied to something, or an operation to an operation.
    assert!(lang.sapp(lang.svar(X, &n), lang.svar(ONE, &n), &n).malformed());
    assert!(lang.sapp(lang.svar(PLUS, &n), lang.svar(MULT, &n), &n).malformed());
    assert!(lang.sapp(Analysis::Unique, lang.svar(ONE, &n), &n).malformed());
    let f = lang.slam(X, lang.svar(X, &n), &n);
    assert_eq!(meaning_name(&f), "a function");
    assert!(lang.slam(X, Analysis::Unique, &n).malformed());
    assert!(lang.same(&PolySem::Op(PLUS), &PolySem::Op(PLUS)));
    assert!(!lang.same(&PolySem::Op(PLUS), &PolySem::Op(MULT)));
    assert!(!lang.same(&PolySem::Poly(x()), &PolySem::Partial(PLUS, x())));
    let g = PolySem::Func(X, Box::new(PolySem::Poly(x())));
    assert!(lang.same(&lang.copy(&g), &g));
    assert_eq!(lang.small_size(), 10);
    assert_eq!(lang.large_size(), 20);
    assert_eq!(lang.context().len(), 4);
}

fn var(x: Identifier) -> Term {
    Term::var(x)
}

fn app2(f: Term, a: Term, b: Term) -> Term {
    Term::app(Term::app(f, a), b)
}

#[test]
fn the_successor_is_found_once() {
    let lang = Polynomials;
    let ty = Type::fun(number(), number());
    let wanted = PolySem::Func(A, Box::new(PolySem::Poly(Sum::from_variable(A).plus(&k(1)))));
    let mut hits = Vec::new();
    let mut all = Vec::new();
    let mut e = search(&lang, vec![], &ty, 6);
    while let Some((t, a)) = e.next() {
        let s = match a {
            Analysis::Canonical(s) => s,
            _ => panic!("the polynomials give every term a canonical analysis"),
        };
        if s.same(&wanted) {
            hits.push(t);
        }
        all.push(s);
    }
    assert_eq!(hits, vec![Term::lam(A, app2(var(PLUS), var(ONE), var(A)))]);
    for i in 0..all.len() {
        for j in 0..i {
            assert!(!all[i].same(&all[j]));
        }
    }
    // 0, 1, a, 2, a + 1, 2a and a * a.
    assert_eq!(all.len(), 7);
}

fn value_of_mono(m: &Mono, at: &dyn Fn(Identifier) -> i32) -> i32 {
    match m {
        Mono::One => 1,
        Mono::Times(x, r) => at(*x).wrapping_mul(value_of_mono(r, at)),
    }
}

fn value_of(p: &Sum, at: &dyn Fn(Identifier) -> i32) -> i32 {
    match p {
        Sum::Zero => 0,
        Sum::Plus(c, m, r) => c.wrapping_mul(value_of_mono(m, at)).wrapping_add(value_of(r, at)),
    }
}

#[test]
fn the_polynomial_of_a_term_has_the_value_that_the_term_computes() {
    let lang = Polynomials;
    let ctxt = lang.context();
    let ty = Type::fun(number(), Type::fun(number(), number()));
    let inputs = [(0, 0), (1, 2), (3, 1), (-4, 7), (65536, 65537), (i32::MAX, 2)];
    let mut seen = 0;
    for size in 1..=11 {
        let mut e = search(&lang, vec![], &ty, size);
        while let Some((t, a)) = e.next() {
            // Partial applications, also below a binder, are left aside.
            let body = match a {
                Analysis::Canonical(PolySem::Func(A, inner)) => match *inner {
                    PolySem::Func(B, body) => match *body {
                        PolySem::Poly(p) => p,
                        _ => continue,
                    },
                    _ => continue,
                },
                _ => continue,
            };
            for (x, y) in inputs {
                let mut program = Term::app(
                    Term::app(t.clone(), Term::val(Value::Int(x))),
                    Term::val(Value::Int(y)),
                );
                assert!(program.exec_bounded(&ctxt, 10_000));
                let at = |v: Identifier| if v == A { x } else { y };
                assert_eq!(program, Term::val(Value::Int(value_of(&body, &at))));
            }
            seen += 1;
        }
    }
    assert!(seen > 50);
}

#[test]
fn normal_forms_stay_normal() {
    fn sorted(m: &Mono) -> bool {
        match m {
            Mono::One => true,
            Mono::Times(x, r) => match &**r {
                Mono::One => true,
                Mono::Times(y, _) => x <= y && sorted(r),
            },
        }
    }
    fn normal(p: &Sum) -> bool {
        match p {
            Sum::Zero => true,
            Sum::Plus(c, m, r) => {
                *c != 0
                    && sorted(m)
                    && normal(r)
                    && match &**r {
                        Sum::Zero => true,
                        Sum::Plus(_, n, _) => m.order(n) == Order::Less,
                    }
            },
        }
    }
    let ps = [k(0), k(1), k(-3), x(), y(), x().plus(&k(2)), x().times(&y()).plus(&y())];
    for a in &ps {
        for b in &ps {
            assert!(normal(&a.plus(b)));
            assert!(normal(&a.times(b)));
            assert!(normal(&a.replaced(X, b)));
            assert!(normal(&a.scaled(-2, &mono(&[A, Y]))));
        }
    }
}
