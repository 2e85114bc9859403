use kolmogorov::{fresh_var, new_var_where, produces, Identifier, Term, Type, Value, POOL_SIZE};
use std::collections::HashSet;

const A: Identifier = 0;
const B: Identifier = 1;
const F: Identifier = 5;
const X: Identifier = 23;
const Y: Identifier = 24;
const Z: Identifier = 25;

fn var(x: Identifier) -> Term {
    Term::var(x)
}

fn lam(x: Identifier, b: Term) -> Term {
    Term::lam(x, b)
}

fn app(f: Term, a: Term) -> Term {
    Term::app(f, a)
}

fn num(n: i32) -> Term {
    Term::val(Value::Int(n))
}

fn set(names: &[Identifier]) -> HashSet<Identifier> {
    names.iter().copied().collect()
}

fn omega() -> Term {
    let half = lam(X, app(var(X), var(X)));
    app(half.clone(), half)
}

#[test]
fn size_counts_every_node() {
    assert_eq!(var(X).node_count(), 1);
    assert_eq!(num(3).node_count(), 1);
    assert_eq!(lam(X, var(X)).node_count(), 2);
    assert_eq!(app(var(F), var(X)).node_count(), 3);
    let t = lam(X, app(app(var(F), var(X)), num(1)));
    assert_eq!(t.node_count(), 6);
    assert_eq!(t.size_checked(), Some(6));
}

#[test]
fn free_vars_leave_out_bound_ones() {
    assert_eq!(var(X).free_vars(), set(&[X]));
    assert_eq!(num(1).free_vars(), set(&[]));
    assert_eq!(lam(X, var(X)).free_vars(), set(&[]));
    assert_eq!(lam(X, app(var(X), var(Y))).free_vars(), set(&[Y]));
    assert_eq!(app(lam(X, var(X)), var(X)).free_vars(), set(&[X]));
    assert_eq!(app(var(F), lam(Y, app(var(Z), var(Y)))).free_vars(), set(&[F, Z]));
}

#[test]
fn deep_clone_and_equality() {
    let t = lam(X, app(var(F), num(2)));
    let u = t.deep_clone();
    assert_eq!(t, u);
    assert!(t.same(&u));
    assert_ne!(t, lam(X, app(var(F), num(3))));
    assert_ne!(t, lam(Y, app(var(F), num(2))));
    assert_ne!(num(1), Term::val(Value::Bool(true)));
}

#[test]
fn value_accessors() {
    assert_eq!(Value::Int(4).as_int(), Some(4));
    assert_eq!(Value::Int(4).as_bool(), None);
    assert_eq!(Value::Bool(true).as_bool(), Some(true));
    assert_eq!(Value::Bool(true).as_int(), None);
    assert_eq!(num(7).leaf_val(), Some(Value::Int(7)));
    assert_eq!(var(X).leaf_val(), None);
}

#[test]
fn sub_replaces_free_occurrences_only() {
    let mut t = app(var(X), lam(X, var(X)));
    t.sub(X, num(1));
    assert_eq!(t, app(num(1), lam(X, var(X))));

    let mut t = var(Y);
    t.sub(X, num(1));
    assert_eq!(t, var(Y));

    let mut t = lam(Y, app(var(X), var(Y)));
    t.sub(X, var(Z));
    assert_eq!(t, lam(Y, app(var(Z), var(Y))));
}

#[test]
fn sub_renames_a_binder_that_would_capture() {
    // (y -> x y)[x := y]: the binder gets the first name that is free.
    let mut t = lam(Y, app(var(X), var(Y)));
    t.sub(X, var(Y));
    assert_eq!(t, lam(A, app(var(Y), var(A))));

    // The name must not occur in the body either.
    let mut t = lam(Y, app(app(var(X), var(Y)), var(A)));
    t.sub(X, var(Y));
    assert_eq!(t, lam(B, app(app(var(Y), var(B)), var(A))));
}

#[test]
fn sub_renames_even_where_the_variable_does_not_occur() {
    let mut t = lam(Y, var(Y));
    t.sub(X, var(Y));
    assert_eq!(t, lam(A, var(A)));
}

#[test]
fn substitution_frees_no_variable() {
    let terms = vec![
        var(X),
        lam(Y, app(var(X), var(Y))),
        app(lam(X, var(X)), var(X)),
        lam(Y, lam(Z, app(app(var(X), var(Y)), var(Z)))),
        app(var(F), lam(A, app(var(X), var(A)))),
    ];
    let codes = vec![var(Y), app(var(Y), var(Z)), lam(A, app(var(A), var(Y))), num(3), var(A)];
    for t in &terms {
        for s in &codes {
            for v in [X, Y, A] {
                let mut r = t.clone();
                r.sub(v, s.clone());
                let mut allowed = t.free_vars();
                allowed.remove(&v);
                for x in s.free_vars() {
                    allowed.insert(x);
                }
                assert!(r.free_vars().is_subset(&allowed));
            }
        }
    }
}

#[test]
fn rename_var_is_blind_to_binders() {
    let mut t = lam(X, app(var(X), var(Y)));
    t.rename_var(X, Z);
    assert_eq!(t, lam(Z, app(var(Z), var(Y))));
}

#[test]
fn beta_contracts_the_leftmost_outermost_redex() {
    let mut t = app(lam(X, var(X)), var(Y));
    assert!(!t.beta());
    assert_eq!(t, var(Y));
    assert!(t.beta());
    assert_eq!(t, var(Y));

    // The outer redex goes first, the inner one is copied with the argument.
    let inner = app(lam(Z, var(Z)), var(Y));
    let mut t = app(lam(X, app(var(X), var(X))), inner.clone());
    assert!(!t.beta());
    assert_eq!(t, app(inner.clone(), inner));

    // In an application of a variable the arguments are reduced in order.
    let mut t = app(app(var(F), app(lam(X, var(X)), var(A))), app(lam(X, var(X)), var(B)));
    assert!(!t.beta());
    assert_eq!(t, app(app(var(F), var(A)), app(lam(X, var(X)), var(B))));
    assert!(!t.beta());
    assert_eq!(t, app(app(var(F), var(A)), var(B)));
    assert!(t.beta());
}

#[test]
fn beta_reduces_below_binders() {
    let mut t = lam(Y, app(lam(X, var(X)), var(Y)));
    assert!(!t.in_beta_normal_form());
    assert!(!t.beta());
    assert_eq!(t, lam(Y, var(Y)));
    assert!(t.in_beta_normal_form());
}

#[test]
fn head_red_stops_at_weak_head_normal_form() {
    // An abstraction is weak head normal whatever its body holds.
    let mut t = lam(Y, app(lam(X, var(X)), var(Y)));
    assert!(t.head_red());
    assert_eq!(t, lam(Y, app(lam(X, var(X)), var(Y))));

    // Arguments are left alone.
    let mut t = app(var(F), app(lam(X, var(X)), var(Y)));
    assert!(t.head_red());

    // The head redex may lie below several arguments.
    let mut t = app(app(lam(X, var(X)), var(F)), var(Y));
    assert!(!t.head_red());
    assert_eq!(t, app(var(F), var(Y)));
    assert!(t.head_red());
}

#[test]
fn normalize_reaches_the_normal_form() {
    let k = lam(X, lam(Y, var(X)));
    let mut t = app(app(k, var(A)), omega());
    t.normalize();
    assert_eq!(t, var(A));

    let two = lam(F, lam(X, app(var(F), app(var(F), var(X)))));
    let mut t = app(app(two.clone(), two), var(Z));
    t.normalize();
    assert!(t.in_beta_normal_form());
    assert_eq!(t.node_count(), 10);
}

#[test]
fn hnf_reaches_the_weak_head_normal_form() {
    let mut t = app(app(lam(X, lam(Y, var(X))), var(F)), omega());
    t.hnf();
    assert_eq!(t, var(F));

    let mut t = app(app(lam(X, var(X)), var(F)), app(lam(X, var(X)), var(A)));
    t.hnf();
    assert_eq!(t, app(var(F), app(lam(X, var(X)), var(A))));
}

#[test]
fn bounded_reduction_stops_after_the_limit() {
    let redex = || app(lam(X, var(X)), var(Y));
    let mut t = redex();
    assert!(!t.normalize_bounded(0));
    assert_eq!(t, redex());
    // One step reaches the normal form.
    let mut t = redex();
    assert!(t.normalize_bounded(1));
    assert_eq!(t, var(Y));
    assert!(t.normalize_bounded(0));
    assert!(t.normalize_bounded(7));
    assert_eq!(t, var(Y));

    // Two redexes: one step is not enough, two are.
    let two = || app(app(var(F), redex()), redex());
    let mut t = two();
    assert!(!t.normalize_bounded(1));
    assert_eq!(t, app(app(var(F), var(Y)), redex()));
    let mut t = two();
    assert!(t.normalize_bounded(2));
    assert_eq!(t, app(app(var(F), var(Y)), var(Y)));

    let mut t = omega();
    assert!(!t.normalize_bounded(25));
    assert_eq!(t, omega());

    let mut t = app(app(lam(X, var(X)), var(F)), var(Y));
    assert!(!t.hnf_bounded(0));
    assert!(t.hnf_bounded(1));
    assert_eq!(t, app(var(F), var(Y)));
    assert!(t.hnf_bounded(0));
    let mut t = omega();
    assert!(!t.hnf_bounded(25));
    // Weak head normal form leaves the arguments as they are.
    let mut t = app(var(F), redex());
    assert!(t.hnf_bounded(3));
    assert_eq!(t, app(var(F), redex()));
    assert!(t.in_weak_head_normal_form());
    assert!(!t.in_beta_normal_form());
}

#[test]
fn new_var_where_takes_the_first_name_accepted() {
    assert_eq!(new_var_where(|_| true), Some(0));
    assert_eq!(new_var_where(|s| s >= 3), Some(3));
    assert_eq!(new_var_where(|s| s % 7 == 6), Some(6));
    assert_eq!(new_var_where(|s| s == POOL_SIZE - 1), Some(POOL_SIZE - 1));
    assert_eq!(new_var_where(|s| s >= POOL_SIZE), None);
    assert_eq!(new_var_where(|_| false), None);
}

#[test]
fn fresh_var_is_the_least_name_not_taken() {
    assert_eq!(fresh_var(&set(&[])), 0);
    assert_eq!(fresh_var(&set(&[1, 2])), 0);
    assert_eq!(fresh_var(&set(&[0, 1, 3])), 2);
    let pool: Vec<Identifier> = (0..POOL_SIZE).collect();
    assert_eq!(fresh_var(&set(&pool)), POOL_SIZE);
    let mut more = pool.clone();
    more.push(POOL_SIZE);
    more.push(POOL_SIZE + 2);
    assert_eq!(fresh_var(&set(&more)), POOL_SIZE + 1);
}

#[test]
fn types_compare_by_structure() {
    let n = Type::ground(1);
    let b = Type::ground(2);
    let f = Type::fun(n.clone(), b.clone());
    assert_eq!(f, Type::fun(Type::ground(1), Type::ground(2)));
    assert_ne!(f, Type::fun(Type::ground(2), Type::ground(1)));
    assert_ne!(n, b);
    assert_ne!(n, f);
    assert!(f.same(&f.deep_clone()));
}

#[test]
fn produces_follows_the_results() {
    let n = Type::ground(1);
    let b = Type::ground(2);
    let nnb = Type::fun(n.clone(), Type::fun(n.clone(), b.clone()));
    assert!(produces(&n, &n));
    assert!(!produces(&n, &b));
    assert!(produces(&nnb, &b));
    assert!(produces(&nnb, &Type::fun(n.clone(), b.clone())));
    assert!(produces(&nnb, &nnb));
    assert!(!produces(&nnb, &n));
    let higher = Type::fun(Type::fun(n.clone(), b.clone()), n.clone());
    assert!(produces(&higher, &n));
    assert!(!produces(&higher, &b));
}
