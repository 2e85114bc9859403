use kolmogorov::languages::arith::{number, polynomial_context, Arith, MULT, ONE, PLUS, ZERO};
use kolmogorov::{
    analyze, annotate_term, has_type, search, search_with_cache, Analysis, Cache, Context,
    Identifier, Language, Opaque, SearchResult, Searcher, Term, Type, Value, VarDecl,
};
use std::cell::Cell;
use std::collections::BTreeMap;

const A: Identifier = 0;
const B: Identifier = 1;

fn var(x: Identifier) -> Term {
    Term::var(x)
}

fn lam(x: Identifier, b: Term) -> Term {
    Term::lam(x, b)
}

fn app(f: Term, a: Term) -> Term {
    Term::app(f, a)
}

fn app2(f: Term, a: Term, b: Term) -> Term {
    app(app(f, a), b)
}

fn unary() -> Type {
    Type::fun(number(), number())
}

fn opaque() -> Opaque<Arith> {
    Opaque::new(polynomial_context(), 5, 8)
}

fn all<L: Language>(lang: &L, vars: Vec<VarDecl>, ty: &Type, size: usize) -> Vec<Term> {
    let mut e = search(lang, vars, ty, size);
    let mut out = Vec::new();
    while let Some((t, _)) = e.next() {
        out.push(t);
    }
    assert!(e.next().is_none());
    out
}

#[test]
fn leaves_of_a_ground_type() {
    let lang = opaque();
    assert_eq!(all(&lang, vec![], &number(), 1), vec![var(ZERO), var(ONE)]);
    assert_eq!(all(&lang, vec![], &number(), 0), Vec::<Term>::new());
    assert_eq!(all(&lang, vec![], &number(), 2), Vec::<Term>::new());
    assert_eq!(all(&lang, vec![], &number(), 3), Vec::<Term>::new());
    assert_eq!(all(&lang, vec![], &number(), 4), Vec::<Term>::new());
}

#[test]
fn applications_come_head_by_head_with_small_arguments_first() {
    let lang = opaque();
    let z = || var(ZERO);
    let o = || var(ONE);
    assert_eq!(
        all(&lang, vec![], &number(), 5),
        vec![
            app2(var(PLUS), z(), z()),
            app2(var(PLUS), z(), o()),
            app2(var(PLUS), o(), z()),
            app2(var(PLUS), o(), o()),
            app2(var(MULT), z(), z()),
            app2(var(MULT), z(), o()),
            app2(var(MULT), o(), z()),
            app2(var(MULT), o(), o()),
        ]
    );
}

#[test]
fn variables_in_scope_are_heads_after_the_primitives() {
    let lang = opaque();
    let x: Identifier = 23;
    let vars = vec![(x, number())];
    assert_eq!(all(&lang, vars.clone(), &number(), 1), vec![var(ZERO), var(ONE), var(x)]);
    assert_eq!(all(&lang, vars, &number(), 5).len(), 18);
    let f: Identifier = 5;
    let vars = vec![(f, unary())];
    assert_eq!(
        all(&lang, vars, &number(), 3),
        vec![app(var(f), var(ZERO)), app(var(f), var(ONE))]
    );
}

#[test]
fn function_types_have_partial_applications_and_abstractions() {
    let lang = opaque();
    assert_eq!(all(&lang, vec![], &unary(), 1), Vec::<Term>::new());
    assert_eq!(
        all(&lang, vec![], &unary(), 2),
        vec![lam(A, var(ZERO)), lam(A, var(ONE)), lam(A, var(A))]
    );
    assert_eq!(
        all(&lang, vec![], &unary(), 3),
        vec![
            app(var(PLUS), var(ZERO)),
            app(var(PLUS), var(ONE)),
            app(var(MULT), var(ZERO)),
            app(var(MULT), var(ONE)),
        ]
    );
    // Nine arguments for each of two operations.
    assert_eq!(all(&lang, vec![], &unary(), 6).len(), 18);
}

#[test]
fn binders_get_the_first_free_letters() {
    let lang = opaque();
    let ty = Type::fun(number(), unary());
    let found = all(&lang, vec![], &ty, 3);
    assert_eq!(found.len(), 4);
    assert_eq!(found[0], lam(A, lam(B, var(ZERO))));
    assert_eq!(found[2], lam(A, lam(B, var(A))));
    assert_eq!(found[3], lam(A, lam(B, var(B))));
    // A letter that is in scope is not used again.
    let found = all(&lang, vec![(A, number())], &unary(), 2);
    assert_eq!(found, vec![lam(B, var(ZERO)), lam(B, var(ONE)), lam(B, var(A)), lam(B, var(B))]);
}

#[test]
fn higher_order_arguments() {
    let lang = opaque();
    let f: Identifier = 5;
    let vars = vec![(f, Type::fun(unary(), number()))];
    // f applied to an abstraction of two nodes: 1 + 2 + 1.
    assert_eq!(
        all(&lang, vars.clone(), &number(), 4),
        vec![
            app(var(f), lam(A, var(ZERO))),
            app(var(f), lam(A, var(ONE))),
            app(var(f), lam(A, var(A))),
        ]
    );
    // f applied to a partial application of three nodes.
    assert_eq!(all(&lang, vars, &number(), 5).len(), 8 + 4);
}

#[test]
fn every_yield_is_normal_sized_and_typed() {
    let lang = opaque();
    let ctxt = lang.context();
    let x: Identifier = 23;
    let scopes = vec![vec![], vec![(x, number())], vec![(x, unary())]];
    let types = vec![number(), unary(), Type::fun(number(), unary()), Type::fun(unary(), number())];
    for vars in &scopes {
        for ty in &types {
            for size in 0..8 {
                for mut t in all(&lang, vars.clone(), ty, size) {
                    assert_eq!(t.node_count(), size);
                    assert!(t.in_beta_normal_form());
                    assert!(has_type(&t, &ctxt, vars, ty));
                    let before = t.clone();
                    assert!(t.beta());
                    assert_eq!(t, before);
                }
            }
        }
    }
}

#[test]
fn annotation_gives_the_root_the_target_type() {
    let lang = opaque();
    let ctxt = lang.context();
    for ty in [number(), unary(), Type::fun(unary(), unary())] {
        for size in 1..8 {
            for t in all(&lang, vec![], &ty, size) {
                let meta = annotate_term(&t, &ctxt, &ty);
                assert_eq!(meta.len(), size);
                assert_eq!(*meta[0].ty(), ty);
                assert_eq!(meta[0].size(), size);
            }
        }
    }
}

#[test]
fn the_opaque_language_yields_unique_analyses() {
    let lang = opaque();
    let mut e = search(&lang, vec![], &number(), 5);
    let mut n = 0;
    while let Some((_, a)) = e.next() {
        assert!(matches!(a, Analysis::Unique));
        assert!(!a.malformed());
        n += 1;
    }
    assert_eq!(n, 8);
}

type Poly = BTreeMap<Vec<Identifier>, i64>;

#[derive(Clone, Debug, PartialEq)]
enum Sem {
    Poly(Poly),
    Appl(Identifier, Vec<Poly>),
    Func(Identifier, Box<Sem>),
}

fn constant(n: i64) -> Poly {
    let mut p = Poly::new();
    if n != 0 {
        p.insert(vec![], n);
    }
    p
}

fn unknown(x: Identifier) -> Poly {
    let mut p = Poly::new();
    p.insert(vec![x], 1);
    p
}

fn plus(a: &Poly, b: &Poly) -> Poly {
    let mut p = a.clone();
    for (m, c) in b {
        let sum = p.get(m).copied().unwrap_or(0) + c;
        if sum == 0 {
            p.remove(m);
        } else {
            p.insert(m.clone(), sum);
        }
    }
    p
}

fn times(a: &Poly, b: &Poly) -> Poly {
    let mut p = Poly::new();
    for (m, c) in a {
        for (n, d) in b {
            let mut mono = m.clone();
            mono.extend(n.iter().copied());
            mono.sort();
            let mut one = Poly::new();
            one.insert(mono, c * d);
            p = plus(&p, &one);
        }
    }
    p
}

/// The polynomials: sums and products of zero, one and the variables, told
/// apart by their normal form. A product with zero counts as malformed where
/// `strict` is set.
struct Polynomials {
    strict: bool,
    calls: Cell<usize>,
}

impl Polynomials {
    fn new() -> Self {
        Polynomials { strict: false, calls: Cell::new(0) }
    }
}

impl Language for Polynomials {
    type Semantics = Sem;
    type Prim = Arith;

    fn small_size(&self) -> usize {
        5
    }

    fn large_size(&self) -> usize {
        9
    }

    fn context(&self) -> Context<Arith> {
        polynomial_context()
    }

    fn sval(&self, value: &Value, _ty: &Type) -> Analysis<Sem> {
        match value.as_int() {
            Some(n) => Analysis::Canonical(Sem::Poly(constant(n as i64))),
            None => Analysis::Malformed,
        }
    }

    fn svar(&self, ident: Identifier, _ty: &Type) -> Analysis<Sem> {
        Analysis::Canonical(match ident {
            ZERO => Sem::Poly(constant(0)),
            ONE => Sem::Poly(constant(1)),
            PLUS | MULT => Sem::Appl(ident, vec![]),
            _ => Sem::Poly(unknown(ident)),
        })
    }

    fn slam(&self, ident: Identifier, body: Analysis<Sem>, _ty: &Type) -> Analysis<Sem> {
        self.calls.set(self.calls.get() + 1);
        match body {
            Analysis::Canonical(body) => Analysis::Canonical(Sem::Func(ident, Box::new(body))),
            _ => Analysis::Malformed,
        }
    }

    fn sapp(&self, fun: Analysis<Sem>, arg: Analysis<Sem>, _ty: &Type) -> Analysis<Sem> {
        self.calls.set(self.calls.get() + 1);
        match (fun, arg) {
            (Analysis::Canonical(Sem::Appl(op, mut args)), Analysis::Canonical(Sem::Poly(p))) => {
                if args.is_empty() {
                    args.push(p);
                    return Analysis::Canonical(Sem::Appl(op, args));
                }
                if op == PLUS {
                    Analysis::Canonical(Sem::Poly(plus(&args[0], &p)))
                } else if self.strict && (args[0].is_empty() || p.is_empty()) {
                    Analysis::Malformed
                } else {
                    Analysis::Canonical(Sem::Poly(times(&args[0], &p)))
                }
            },
            _ => Analysis::Malformed,
        }
    }

    fn same(&self, a: &Sem, b: &Sem) -> bool {
        a == b
    }

    fn copy(&self, a: &Sem) -> Sem {
        a.clone()
    }
}

fn yields<L: Language>(
    lang: &L,
    vars: Vec<VarDecl>,
    ty: &Type,
    size: usize,
) -> Vec<(Term, Analysis<L::Semantics>)> {
    let mut e = search(lang, vars, ty, size);
    let mut out = Vec::new();
    while let Some(item) = e.next() {
        out.push(item);
    }
    out
}

fn meaning(a: &Analysis<Sem>) -> Sem {
    match a {
        Analysis::Canonical(s) => s.clone(),
        _ => panic!("a canonical analysis is expected"),
    }
}

#[test]
fn of_two_terms_with_one_meaning_the_first_is_kept() {
    let lang = Polynomials::new();
    let found = yields(&lang, vec![], &number(), 5);
    let terms: Vec<Term> = found.iter().map(|(t, _)| t.clone()).collect();
    // 0 + 0, 0 + 1 and 1 + 1 are new; 1 + 0 and every product are not.
    assert_eq!(
        terms,
        vec![
            app2(var(PLUS), var(ZERO), var(ZERO)),
            app2(var(PLUS), var(ZERO), var(ONE)),
            app2(var(PLUS), var(ONE), var(ONE)),
        ]
    );
    assert_eq!(meaning(&found[0].1), Sem::Poly(constant(0)));
    assert_eq!(meaning(&found[1].1), Sem::Poly(constant(1)));
    assert_eq!(meaning(&found[2].1), Sem::Poly(constant(2)));
}

#[test]
fn no_two_yields_share_a_canonical_analysis() {
    let lang = Polynomials::new();
    let x: Identifier = 23;
    for vars in [vec![], vec![(x, number())]] {
        for ty in [number(), unary(), Type::fun(number(), unary())] {
            for size in 1..10 {
                let found = yields(&lang, vars.clone(), &ty, size);
                for i in 0..found.len() {
                    for j in 0..i {
                        assert_ne!(meaning(&found[i].1), meaning(&found[j].1));
                    }
                }
            }
        }
    }
}

#[test]
fn malformed_branches_are_dropped() {
    let lax = Polynomials::new();
    let strict = Polynomials { strict: true, calls: Cell::new(0) };
    let x: Identifier = 23;
    let vars = vec![(x, number())];
    let all_of = |lang: &Polynomials| -> Vec<Term> {
        yields(lang, vars.clone(), &number(), 5).into_iter().map(|(t, _)| t).collect()
    };
    let with_products = all_of(&lax);
    let without = all_of(&strict);
    assert!(with_products.contains(&app2(var(MULT), var(x), var(x))));
    assert!(without.contains(&app2(var(MULT), var(x), var(x))));
    // x * x is kept, and nothing that multiplies by zero is built on.
    assert!(without.len() <= with_products.len());
    for size in 1..10 {
        for (_, a) in yields(&strict, vars.clone(), &number(), size) {
            assert!(!a.malformed());
        }
    }
}

#[test]
fn successor_is_found_once_among_the_polynomials() {
    let lang = Polynomials::new();
    let wanted = Sem::Func(A, Box::new(Sem::Poly(plus(&unknown(A), &constant(1)))));
    // A term of five nodes would need a body of four, which none has.
    assert_eq!(yields(&lang, vec![], &unary(), 5).len(), 0);
    let found = yields(&lang, vec![], &unary(), 6);
    let hits: Vec<&Term> =
        found.iter().filter(|(_, a)| meaning(a) == wanted).map(|(t, _)| t).collect();
    assert_eq!(hits, vec![&lam(A, app2(var(PLUS), var(ONE), var(A)))]);
    for i in 0..found.len() {
        for j in 0..i {
            assert_ne!(meaning(&found[i].1), meaning(&found[j].1));
        }
    }
    assert!(found.len() > 1);
}

fn pow(n: i32) -> i32 {
    2i32.pow(n as u32)
}

#[test]
fn doubling_is_synthesized_from_powers_of_two() {
    let lang = Polynomials::new();
    let ctxt = lang.context();
    let ty = Type::fun(number(), unary());
    let fits = |term: &Term, upto: i32| -> bool {
        (1..upto).all(|n| {
            let mut program = app2(
                term.clone(),
                Term::val(Value::Int(pow(n - 1))),
                Term::val(Value::Int(n)),
            );
            program.exec(&ctxt);
            program == Term::val(Value::Int(pow(n)))
        })
    };
    let mut found = None;
    'sizes: for size in 1..=7 {
        for (term, _) in yields(&lang, vec![], &ty, size) {
            if fits(&term, 5) {
                found = Some(term);
                break 'sizes;
            }
        }
    }
    let term = found.expect("a term of at most seven nodes doubles its first argument");
    assert_eq!(term, lam(A, lam(B, app2(var(PLUS), var(A), var(A)))));
    // Equal to p n -> p * 2 on more than the examples.
    assert!(fits(&term, 20));
}

#[test]
fn a_second_run_with_the_cache_yields_the_same_and_asks_less() {
    let lang = Polynomials::new();
    let ty = unary();
    let size = 10;
    let mut first = search(&lang, vec![], &ty, size);
    let mut a = Vec::new();
    while let Some((_, s)) = first.next() {
        a.push(meaning(&s));
    }
    let cache = first.cache();
    let first_calls = lang.calls.replace(0);
    let mut second = search_with_cache(&lang, vec![], &ty, size, cache);
    let mut b = Vec::new();
    while let Some((_, s)) = second.next() {
        b.push(meaning(&s));
    }
    let second_calls = lang.calls.get();
    assert!(!a.is_empty());
    assert_eq!(a, b);
    assert!(second_calls < first_calls);
}

#[test]
fn the_cache_records_how_searches_ended() {
    let lang = opaque();
    let mut e = search(&lang, vec![], &number(), 5);
    while e.next().is_some() {}
    let cache = e.cache();
    assert_eq!(cache.lookup(&number(), 5), SearchResult::Inhabited);
    assert_eq!(cache.lookup(&number(), 1), SearchResult::Inhabited);
    assert_eq!(cache.lookup(&number(), 2), SearchResult::Uninhabited);
    assert_eq!(cache.lookup(&number(), 3), SearchResult::Uninhabited);

    let mut e = search(&lang, vec![], &number(), 4);
    assert!(e.next().is_none());
    let cache = e.cache();
    assert_eq!(cache.lookup(&number(), 4), SearchResult::Uninhabited);
}

#[test]
fn what_the_cache_holds_as_uninhabited_stays_empty() {
    let lang = opaque();
    let types = [number(), unary(), Type::fun(unary(), number())];
    let mut cache = Cache::new();
    for size in 0..8 {
        for ty in &types {
            let mut e = search_with_cache(&lang, vec![], ty, size, cache);
            while e.next().is_some() {}
            cache = e.cache();
        }
    }
    for size in 0..8 {
        for ty in &types {
            let n = all(&lang, vec![], ty, size).len();
            match cache.lookup(ty, size) {
                SearchResult::Uninhabited => assert_eq!(n, 0),
                SearchResult::Inhabited => assert!(n > 0),
                SearchResult::Unknown => panic!("every search has ended"),
            }
        }
    }
}

#[test]
fn each_call_searches_no_further_than_the_next_term() {
    let lang = Polynomials::new();
    let ty = unary();
    let mut e = search(&lang, vec![], &ty, 14);
    assert!(e.next().is_some());
    let for_one = lang.calls.replace(0);
    let mut rest = 0;
    while e.next().is_some() {
        rest += 1;
    }
    let for_all = lang.calls.get();
    assert!(rest > 20);
    assert!(for_one * 10 < for_all);
}

#[test]
fn an_enumeration_can_be_left_before_its_end() {
    let lang = opaque();
    let mut e = search(&lang, vec![], &unary(), 6);
    let first = e.next().unwrap().0;
    let second = e.next().unwrap().0;
    assert_ne!(first, second);
    // The cache of a search that was left holds no claim of its own yet.
    let cache = e.cache();
    assert_ne!(cache.lookup(&unary(), 6), SearchResult::Uninhabited);
    let again = all(&lang, vec![], &unary(), 6);
    assert_eq!(again[0], first);
    assert_eq!(again[1], second);
    // A later search with the cache of the one that was left yields the same.
    let mut e = search(&lang, vec![], &unary(), 6);
    e.next();
    let later = {
        let mut out = Vec::new();
        let mut f = search_with_cache(&lang, vec![], &unary(), 6, e.cache());
        while let Some((t, _)) = f.next() {
            out.push(t);
        }
        out
    };
    assert_eq!(later, again);
}

#[test]
fn nothing_is_searched_before_the_first_term_is_asked_for() {
    let lang = Polynomials::new();
    let e = search(&lang, vec![], &unary(), 9);
    assert_eq!(lang.calls.get(), 0);
    let cache = e.cache();
    assert_eq!(cache.lookup(&unary(), 9), SearchResult::Unknown);
}

/// Every term of `size` nodes over the given leaves and binders.
fn shapes(size: usize, leaves: &[Identifier], binders: &[Identifier]) -> Vec<Term> {
    if size == 0 {
        return vec![];
    }
    if size == 1 {
        return leaves.iter().map(|x| var(*x)).collect();
    }
    let mut out = Vec::new();
    for v in binders {
        for b in shapes(size - 1, leaves, binders) {
            out.push(lam(*v, b));
        }
    }
    for left in 1..size - 1 {
        let right = size - 1 - left;
        for f in shapes(left, leaves, binders) {
            for a in shapes(right, leaves, binders) {
                out.push(app(f.clone(), a));
            }
        }
    }
    out
}

/// Whether the binders of `t` are named as the enumeration names them: the
/// first letter that is not in scope.
fn named_in_order(t: &Term, depth: u64) -> bool {
    match t {
        Term::Val(_) => false,
        Term::Var(_) => true,
        Term::Lam(v, b) => *v == depth && named_in_order(b, depth + 1),
        Term::App(f, a) => named_in_order(f, depth) && named_in_order(a, depth),
    }
}

#[test]
fn the_opaque_enumeration_leaves_out_no_term() {
    let lang = opaque();
    let ctxt = lang.context();
    let leaves = [PLUS, ZERO, A, B];
    let binders = [A, B];
    let types = [
        number(),
        unary(),
        Type::fun(number(), unary()),
        Type::fun(unary(), number()),
        Type::fun(unary(), unary()),
    ];
    for size in 1..=7 {
        let candidates: Vec<Term> = shapes(size, &leaves, &binders)
            .into_iter()
            .filter(|t| t.in_beta_normal_form() && named_in_order(t, 0))
            .collect();
        for ty in &types {
            let wanted: Vec<&Term> =
                candidates.iter().filter(|t| has_type(t, &ctxt, &vec![], ty)).collect();
            let found: Vec<Term> = all(&lang, vec![], ty, size)
                .into_iter()
                .filter(|t| !mentions(t, MULT) && !mentions(t, ONE))
                .collect();
            assert_eq!(found.len(), wanted.len());
            for t in wanted {
                assert!(found.contains(t));
            }
        }
    }
}

fn mentions(t: &Term, x: Identifier) -> bool {
    match t {
        Term::Val(_) => false,
        Term::Var(y) => *y == x,
        Term::Lam(_, b) => mentions(b, x),
        Term::App(f, a) => mentions(f, x) || mentions(a, x),
    }
}

#[test]
fn the_analysis_that_comes_with_a_term_is_what_the_hooks_make_of_it() {
    let lang = Polynomials::new();
    for ty in [number(), unary(), Type::fun(number(), unary())] {
        for size in 1..10 {
            for (t, a) in yields(&lang, vec![], &ty, size) {
                let again = analyze(&lang, &t, &vec![], &ty);
                assert_eq!(meaning(&again), meaning(&a));
            }
        }
    }
    let x: Identifier = 23;
    let vars = vec![(x, number())];
    for (t, a) in yields(&lang, vars.clone(), &number(), 9) {
        assert_eq!(meaning(&analyze(&lang, &t, &vars, &number())), meaning(&a));
    }
    // A term that does not fit the type wanted, or that has none, is
    // malformed.
    assert!(analyze(&lang, &lam(A, var(A)), &vec![], &number()).malformed());
    assert!(analyze(&lang, &app(var(ZERO), var(ONE)), &vec![], &number()).malformed());
    assert!(analyze(&lang, &var(x), &vec![], &number()).malformed());
}

#[test]
fn every_polynomial_of_a_size_has_one_term() {
    // Each polynomial that some sum or product of the right size computes
    // is the meaning of exactly one term that is yielded.
    let lang = Polynomials::new();
    let x: Identifier = 23;
    let vars = vec![(x, number())];
    let ctxt = lang.context();
    let leaves = [PLUS, MULT, ZERO, ONE, x];
    for size in [1, 5, 9] {
        let found = yields(&lang, vars.clone(), &number(), size);
        for t in shapes(size, &leaves, &[]) {
            if !has_type(&t, &ctxt, &vars, &number()) {
                continue;
            }
            let wanted = meaning(&analyze(&lang, &t, &vars, &number()));
            let hits = found.iter().filter(|(_, a)| meaning(a) == wanted).count();
            assert_eq!(hits, 1);
        }
    }
}

#[test]
fn a_search_without_primitives_finds_the_identity() {
    let none = || Context::<Arith>::new(vec![]);
    // Two binders take two nodes and leave none for a body.
    let binary = Type::fun(number(), unary());
    for size in 0..3 {
        let mut s = Searcher::search(none(), &binary, size);
        assert_eq!(s.next(), None);
        assert_eq!(s.next(), None);
    }
    let mut s = Searcher::search(none(), &unary(), 2);
    assert_eq!(s.next(), Some(lam(A, var(A))));
    assert_eq!(s.next(), None);
    let mut s = Searcher::search(none(), &unary(), 1);
    assert_eq!(s.next(), None);
}

#[test]
fn every_term_of_a_search_is_normal_and_of_the_size() {
    let lang = opaque();
    for ty in [number(), unary(), Type::fun(unary(), number())] {
        for size in 0..8 {
            let mut e = search(&lang, vec![(A, number()), (A, unary())], &ty, size);
            while let Some((t, _)) = e.next() {
                assert!(t.in_beta_normal_form());
                assert_eq!(t.node_count(), size);
                let mut reduced = t.clone();
                assert!(reduced.beta());
                assert_eq!(reduced, t);
            }
        }
    }
}

#[test]
fn the_searcher_enumerates_without_a_language() {
    for ty in [number(), unary(), Type::fun(unary(), number())] {
        for size in 0..8 {
            let mut s = Searcher::search(polynomial_context(), &ty, size);
            let mut found = Vec::new();
            while let Some(t) = s.next() {
                found.push(t);
            }
            assert!(s.next().is_none());
            assert_eq!(found, all(&opaque(), vec![], &ty, size));
        }
    }
}
