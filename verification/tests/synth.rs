use kolmogorov::languages::arith::{number, polynomial_context, Arith, MULT, ONE, PLUS, ZERO};
use kolmogorov::{
    count_map_correct, count_step_correct, first_term, iterative, simple_map, Analysis, Context,
    Example, GRatio, GTerms, Identifier, Language, Opaque, Options, Term, Type, Value, Weigher,
};
use statrs::distribution::{Binomial, Discrete};
use std::collections::BTreeMap;
use std::time::{Duration, Instant};

const A: Identifier = 0;
const B: Identifier = 1;

fn var(x: Identifier) -> Term {
    Term::var(x)
}

fn lam(x: Identifier, b: Term) -> Term {
    Term::lam(x, b)
}

fn app(f: Term, a: Term) -> Term {
    Term::app(f, a)
}

fn app2(f: Term, a: Term, b: Term) -> Term {
    app(app(f, a), b)
}

fn whole(n: i32) -> Value {
    Value::Int(n)
}

fn unary() -> Type {
    Type::fun(number(), number())
}

fn step_type() -> Type {
    Type::fun(number(), unary())
}

fn examples(pairs: &[(i32, i32)]) -> Vec<Example> {
    pairs.iter().map(|(x, y)| (whole(*x), whole(*y))).collect()
}

#[test]
fn examples_are_counted_for_a_function() {
    let c = polynomial_context();
    let succ = lam(A, app2(var(PLUS), var(A), var(ONE)));
    let all = examples(&[(0, 1), (1, 2), (5, 6), (-1, 0)]);
    assert_eq!(count_map_correct(&c, &succ, &all, 100), 4);
    let some = examples(&[(0, 1), (1, 3), (5, 6), (2, 2)]);
    assert_eq!(count_map_correct(&c, &succ, &some, 100), 2);
    assert_eq!(count_map_correct(&c, &succ, &examples(&[]), 100), 0);
    let id = lam(A, var(A));
    assert_eq!(count_map_correct(&c, &id, &all, 100), 0);
    assert_eq!(count_map_correct(&c, &id, &examples(&[(3, 3), (4, 4), (1, 2)]), 100), 2);
}

#[test]
fn an_example_that_takes_too_long_is_not_counted() {
    let c = polynomial_context();
    let succ = lam(A, app2(var(PLUS), var(A), var(ONE)));
    let all = examples(&[(0, 1), (1, 2)]);
    // Contract, reduce the constant, add: three steps.
    assert_eq!(count_map_correct(&c, &succ, &all, 2), 0);
    assert_eq!(count_map_correct(&c, &succ, &all, 3), 2);
    assert_eq!(count_map_correct(&c, &succ, &all, 4), 2);
    let half = lam(A, app(var(A), var(A)));
    let stuck = lam(B, app(half.clone(), half));
    assert_eq!(count_map_correct(&c, &stuck, &all, 1000), 0);
    // A result that is no value does not count either.
    let open = lam(A, app2(var(PLUS), var(A), var(B)));
    assert_eq!(count_map_correct(&c, &open, &all, 1000), 0);
}

#[test]
fn a_step_function_is_fed_the_wanted_values() {
    let c = polynomial_context();
    let double = lam(A, lam(B, app2(var(PLUS), var(A), var(A))));
    let powers = examples(&[(1, 2), (2, 4), (3, 8), (4, 16)]);
    assert_eq!(count_step_correct(&c, &double, &whole(1), &powers, 100), 4);
    assert_eq!(count_step_correct(&c, &double, &whole(3), &powers, 100), 3);
    // One wrong output in the middle does not spoil what follows.
    let bent = examples(&[(1, 2), (2, 5), (3, 10), (4, 20)]);
    assert_eq!(count_step_correct(&c, &double, &whole(1), &bent, 100), 3);
    // prev + n
    let add = var(PLUS);
    assert_eq!(count_step_correct(&c, &add, &whole(1), &powers, 100), 2);
    assert_eq!(count_step_correct(&c, &add, &whole(1), &examples(&[]), 100), 0);
}

#[test]
fn the_first_term_is_the_first_of_the_smallest_size() {
    let lang = Opaque::new(polynomial_context(), 5, 9);
    assert_eq!(first_term(&lang, &number()).0, var(ZERO));
    assert_eq!(first_term(&lang, &unary()).0, lam(A, var(ZERO)));
    assert_eq!(first_term(&lang, &step_type()).0, var(PLUS));
    let higher = Type::fun(unary(), number());
    assert_eq!(first_term(&lang, &higher).0, lam(A, var(ZERO)));
}

fn chance(g: &GTerms, large: usize) -> f64 {
    let ratio = g.replaced_size as f64 / large as f64;
    let pmf = Binomial::new(ratio, large as u64).unwrap().pmf(g.drawn_size as u64);
    pmf / (g.subnode_count as f64 * g.candidates as f64)
}

/// Scores by the number of examples that a term gets right, with a penalty
/// for sizes far from `mean`.
struct DistAbs {
    score_factor: f64,
    mean: usize,
    c: f64,
    large: usize,
    reports: usize,
}

impl DistAbs {
    fn new(mean: usize, c: f64, large: usize) -> Self {
        DistAbs { score_factor: 0.5, mean, c, large, reports: 0 }
    }
}

impl Weigher for DistAbs {
    type Score = f64;

    fn weigh(&mut self, num_correct: usize, term: &Term) -> f64 {
        let size = term.node_count();
        let dist = if size > self.mean { size - self.mean } else { self.mean - size };
        (self.score_factor * num_correct as f64).exp() * (-self.c * dist as f64).exp()
    }

    fn improves(&mut self, best: f64, score: f64) -> bool {
        score > best
    }

    fn accepts(&mut self, current: f64, proposal: f64, ratio: GRatio) -> bool {
        let g = match ratio {
            GRatio::One => 1.0,
            GRatio::Terms { forward, backward } => {
                chance(&backward, self.large) / chance(&forward, self.large)
            },
        };
        rand::random::<f64>() < proposal / current * g
    }

    fn large_size(&mut self, replaced_size: usize, large_size: usize) -> usize {
        let p = replaced_size as f64 / large_size as f64;
        (0..large_size).filter(|_| rand::random::<f64>() < p).count()
    }

    fn progress(&mut self, _iteration: usize, _iterations: usize, _candidate: &Term) {
        self.reports += 1;
    }
}

#[test]
fn simple_map_reports_what_the_term_gets_right() {
    let lang = Opaque::new(polynomial_context(), 5, 9);
    let all = examples(&[(0, 1), (1, 2), (2, 3), (3, 4), (7, 8)]);
    let start = lam(A, var(A));
    // Without a budget the start comes back.
    let out = simple_map(
        &lang,
        &all,
        start.clone(),
        &unary(),
        0,
        100,
        Options { print_freq: None },
        DistAbs::new(6, 0.1, 9),
    );
    assert_eq!(out.term, start);
    assert_eq!(out.iterations, 0);
    assert_eq!(out.num_correct, 0);
    assert!(!out.solved);
    assert!(matches!(out.analysis, Analysis::Unique));
}

#[test]
fn simple_map_finds_the_successor() {
    let lang = Opaque::new(polynomial_context(), 5, 9);
    let all = examples(&[(0, 1), (1, 2), (2, 3), (3, 4), (7, 8)]);
    let c = polynomial_context();
    let begun = Instant::now();
    let mut solved = false;
    while !solved && begun.elapsed() < Duration::from_secs(10) {
        let out = simple_map(
            &lang,
            &all,
            lam(A, var(A)),
            &unary(),
            4000,
            100,
            Options { print_freq: None },
            DistAbs::new(6, 0.1, 9),
        );
        assert!(out.iterations <= 4000);
        assert_eq!(out.num_correct, count_map_correct(&c, &out.term, &all, 100));
        assert_eq!(out.solved, out.num_correct == all.len());
        if out.solved {
            assert!(out.term.in_beta_normal_form());
            let more = examples(&[(20, 21), (-5, -4), (100, 101)]);
            assert_eq!(count_map_correct(&c, &out.term, &more, 100), 3);
        } else {
            assert_eq!(out.iterations, 4000);
        }
        solved = out.solved;
    }
    assert!(solved);
}

type Poly = BTreeMap<Vec<Identifier>, i64>;

#[derive(Clone, Debug, PartialEq)]
enum Sem {
    Poly(Poly),
    Appl(Identifier, Vec<Poly>),
    Func(Identifier, Box<Sem>),
}

fn monomial(vars: Vec<Identifier>, c: i64) -> Poly {
    let mut p = Poly::new();
    if c != 0 {
        p.insert(vars, c);
    }
    p
}

fn plus(a: &Poly, b: &Poly) -> Poly {
    let mut p = a.clone();
    for (m, c) in b {
        let sum = p.get(m).copied().unwrap_or(0) + c;
        if sum == 0 {
            p.remove(m);
        } else {
            p.insert(m.clone(), sum);
        }
    }
    p
}

fn times(a: &Poly, b: &Poly) -> Poly {
    let mut p = Poly::new();
    for (m, c) in a {
        for (n, d) in b {
            let mut mono = m.clone();
            mono.extend(n.iter().copied());
            mono.sort();
            p = plus(&p, &monomial(mono, c * d));
        }
    }
    p
}

/// The polynomials, told apart by their normal form.
struct Polynomials;

impl Language for Polynomials {
    type Semantics = Sem;
    type Prim = Arith;

    fn small_size(&self) -> usize {
        5
    }

    fn large_size(&self) -> usize {
        9
    }

    fn context(&self) -> Context<Arith> {
        polynomial_context()
    }

    fn sval(&self, value: &Value, _ty: &Type) -> Analysis<Sem> {
        match value.as_int() {
            Some(n) => Analysis::Canonical(Sem::Poly(monomial(vec![], n as i64))),
            None => Analysis::Malformed,
        }
    }

    fn svar(&self, ident: Identifier, _ty: &Type) -> Analysis<Sem> {
        Analysis::Canonical(match ident {
            ZERO => Sem::Poly(monomial(vec![], 0)),
            ONE => Sem::Poly(monomial(vec![], 1)),
            PLUS | MULT => Sem::Appl(ident, vec![]),
            _ => Sem::Poly(monomial(vec![ident], 1)),
        })
    }

    fn slam(&self, ident: Identifier, body: Analysis<Sem>, _ty: &Type) -> Analysis<Sem> {
        match body {
            Analysis::Canonical(body) => Analysis::Canonical(Sem::Func(ident, Box::new(body))),
            _ => Analysis::Malformed,
        }
    }

    fn sapp(&self, fun: Analysis<Sem>, arg: Analysis<Sem>, _ty: &Type) -> Analysis<Sem> {
        match (fun, arg) {
            (Analysis::Canonical(Sem::Appl(op, mut args)), Analysis::Canonical(Sem::Poly(p))) => {
                if args.is_empty() {
                    args.push(p);
                    Analysis::Canonical(Sem::Appl(op, args))
                } else if op == PLUS {
                    Analysis::Canonical(Sem::Poly(plus(&args[0], &p)))
                } else {
                    Analysis::Canonical(Sem::Poly(times(&args[0], &p)))
                }
            },
            _ => Analysis::Malformed,
        }
    }

    fn same(&self, a: &Sem, b: &Sem) -> bool {
        a == b
    }

    fn copy(&self, a: &Sem) -> Sem {
        a.clone()
    }
}

#[test]
fn iterative_finds_the_doubling_step() {
    let lang = Polynomials;
    let c = polynomial_context();
    let powers = examples(&[(1, 2), (2, 4), (3, 8), (4, 16)]);
    let begun = Instant::now();
    let mut solved = false;
    while !solved && begun.elapsed() < Duration::from_secs(5) {
        let out = iterative(
            &lang,
            whole(1),
            &powers,
            Some(lam(A, lam(B, var(B)))),
            &step_type(),
            75_000,
            100,
            Options { print_freq: None },
            DistAbs::new(20, 0.5, 9),
        );
        assert!(out.iterations <= 75_000);
        assert_eq!(out.num_correct, count_step_correct(&c, &out.term, &whole(1), &powers, 100));
        assert_eq!(out.solved, out.num_correct == 4);
        if out.solved {
            assert!(out.term.in_beta_normal_form());
        } else {
            assert_eq!(out.iterations, 75_000);
        }
        solved = out.solved;
    }
    assert!(solved);
    // The step that doubles is a solution, whatever the second argument.
    let double = lam(A, lam(B, app2(var(PLUS), var(A), var(A))));
    assert_eq!(count_step_correct(&c, &double, &whole(1), &powers, 100), 4);
}

#[test]
fn iterative_starts_from_the_first_term_where_none_is_given() {
    let lang = Polynomials;
    let powers = examples(&[(1, 2), (2, 4), (3, 8), (4, 16)]);
    let out = iterative(
        &lang,
        whole(1),
        &powers,
        None,
        &step_type(),
        0,
        100,
        Options { print_freq: None },
        DistAbs::new(20, 0.5, 9),
    );
    // prev + n gets the first two right.
    assert_eq!(out.term, var(PLUS));
    assert_eq!(out.num_correct, 2);
    assert!(!out.solved);
}

#[test]
fn a_start_that_fits_comes_back_at_once() {
    let lang = Polynomials;
    let all = examples(&[(0, 0), (1, 1), (2, 2)]);
    let start = lam(A, var(A));
    let out = simple_map(
        &lang,
        &all,
        start.clone(),
        &unary(),
        1000,
        100,
        Options { print_freq: None },
        DistAbs::new(6, 0.1, 9),
    );
    assert_eq!(out.term, start);
    assert_eq!(out.iterations, 0);
    assert_eq!(out.num_correct, 3);
    assert!(out.solved);
    assert!(matches!(out.analysis, Analysis::Unique));
    // A step that doubles what came before.
    let powers = examples(&[(1, 2), (2, 4), (3, 8), (4, 16)]);
    let double = lam(A, lam(B, app2(var(PLUS), var(A), var(A))));
    let out = iterative(
        &lang,
        whole(1),
        &powers,
        Some(double.clone()),
        &step_type(),
        1000,
        100,
        Options { print_freq: None },
        DistAbs::new(20, 0.5, 9),
    );
    assert_eq!(out.term, double);
    assert_eq!(out.iterations, 0);
    assert_eq!(out.num_correct, 4);
    assert!(out.solved);
    assert!(matches!(out.analysis, Analysis::Unique));
}

#[test]
fn iterative_without_a_budget_returns_the_start() {
    let lang = Polynomials;
    let all = examples(&[(1, 2), (2, 5), (3, 10), (4, 20)]);
    let start = lam(A, lam(B, app2(var(PLUS), var(A), var(A))));
    let out = iterative(
        &lang,
        whole(1),
        &all,
        Some(start.clone()),
        &step_type(),
        0,
        100,
        Options { print_freq: None },
        DistAbs::new(20, 0.5, 9),
    );
    assert_eq!(out.term, start);
    assert_eq!(out.iterations, 0);
    // Each step is fed the wanted value before it: 1 -> 2, 5 -> 10 and
    // 10 -> 20 fit, 2 -> 5 does not.
    assert_eq!(out.num_correct, 3);
    assert!(!out.solved);
    assert!(matches!(out.analysis, Analysis::Unique));
}

#[test]
fn progress_is_reported_through_the_weigher() {
    let lang = Opaque::new(polynomial_context(), 5, 9);
    let all = examples(&[(0, 5)]);
    // The weigher is moved into the search, so the reports are counted by a
    // wrapper that outlives it.
    struct Counting<'a>(DistAbs, &'a std::cell::Cell<usize>);
    impl Weigher for Counting<'_> {
        type Score = f64;

        fn weigh(&mut self, n: usize, t: &Term) -> f64 {
            self.0.weigh(n, t)
        }

        fn improves(&mut self, b: f64, s: f64) -> bool {
            self.0.improves(b, s)
        }

        fn accepts(&mut self, c: f64, p: f64, r: GRatio) -> bool {
            self.0.accepts(c, p, r)
        }

        fn large_size(&mut self, r: usize, l: usize) -> usize {
            self.0.large_size(r, l)
        }

        fn progress(&mut self, _i: usize, _n: usize, _c: &Term) {
            self.1.set(self.1.get() + 1);
        }
    }
    let seen = std::cell::Cell::new(0);
    let out = simple_map(
        &lang,
        &all,
        lam(A, var(A)),
        &unary(),
        50,
        100,
        Options { print_freq: Some(10) },
        Counting(DistAbs::new(6, 0.1, 9), &seen),
    );
    if !out.solved {
        assert_eq!(seen.get(), 5);
    }
}
