//! What a language makes of a whole term: the analyses of the leaves, put
//! together by the hooks for abstraction and application.

use crate::annotate::{declared, synth, synth_type};
use crate::language::{Analysis, Language};
use crate::search::Env;
use crate::term::Term;
use crate::types::{clone_decls, Type, VarDecl};
use vstd::prelude::*;

verus! {

/// What the language makes of `t`, a variable applied to arguments: the
/// analysis of the variable at its declared type, and for each application
/// what the hook makes of the analyses of its parts at the type of the
/// application. Malformed as soon as a part is, and where `t` has no type.
pub open spec fn neutral_analysis<L: Language>(env: Env<L>, t: Term) -> Analysis<L::Semantics>
    decreases t, 0nat,
{
    match t {
        Term::Var(x) => match declared(env.cx(), env.vars, x) {
            Some(ty) => env.lang.svar_spec(x, ty),
            None => Analysis::Malformed,
        },
        Term::App(f, a) => match synth(env.cx(), env.vars, *f) {
            Some(Type::Fun(arg, ret)) => {
                let fa = neutral_analysis(env, *f);
                let aa = analysis(env, *a, *arg);
                if fa is Malformed || aa is Malformed {
                    Analysis::Malformed
                } else {
                    env.lang.sapp_spec(fa, aa, *ret)
                }
            },
            _ => Analysis::Malformed,
        },
        _ => Analysis::Malformed,
    }
}

/// What the language makes of `t` where a term of type `ty` is wanted: the
/// analysis of a value at `ty`, of an abstraction what the hook makes of the
/// analysis of its body, and of anything else its [`neutral_analysis`].
pub open spec fn analysis<L: Language>(env: Env<L>, t: Term, ty: Type) -> Analysis<L::Semantics>
    decreases t, 1nat,
{
    match t {
        Term::Val(v) => env.lang.sval_spec(v, ty),
        Term::Lam(v, b) => match ty {
            Type::Fun(arg, ret) => {
                let ba = analysis(Env { lang: env.lang, vars: env.vars.push((v, *arg)) }, *b, *ret);
                if ba is Malformed {
                    Analysis::Malformed
                } else {
                    env.lang.slam_spec(v, ba, ty)
                }
            },
            Type::Ground(_) => Analysis::Malformed,
        },
        _ => neutral_analysis(env, t),
    }
}

/// What the language makes of `term`, a variable applied to arguments, in
/// the scope `decls`: see [`neutral_analysis`].
pub fn analyze_neutral<L: Language>(lang: &L, term: &Term, decls: &Vec<VarDecl>) -> (a: Analysis<
    L::Semantics,
>)
    ensures
        a == neutral_analysis(Env { lang: *lang, vars: decls@ }, *term),
    decreases *term, 0nat,
{
    let ctxt = lang.context();
    match term {
        Term::Var(x) => match synth_type(term, &ctxt, decls) {
            Some(ty) => lang.svar(*x, &ty),
            None => Analysis::Malformed,
        },
        Term::App(f, a) => match synth_type(f, &ctxt, decls) {
            Some(Type::Fun(arg, ret)) => {
                let fa = analyze_neutral(lang, f, decls);
                let aa = analyze(lang, a, decls, &arg);
                if fa.malformed() || aa.malformed() {
                    Analysis::Malformed
                } else {
                    lang.sapp(fa, aa, &ret)
                }
            },
            _ => Analysis::Malformed,
        },
        _ => Analysis::Malformed,
    }
}

/// What the language makes of `term` in the scope `decls`, where a term of
/// type `ty` is wanted: see [`analysis`].
pub fn analyze<L: Language>(lang: &L, term: &Term, decls: &Vec<VarDecl>, ty: &Type) -> (a: Analysis<
    L::Semantics,
>)
    ensures
        a == analysis(Env { lang: *lang, vars: decls@ }, *term, *ty),
    decreases *term, 1nat,
{
    match term {
        Term::Val(v) => lang.sval(v, ty),
        Term::Lam(v, b) => match ty {
            Type::Fun(arg, ret) => {
                let mut inner = clone_decls(decls);
                inner.push((*v, arg.deep_clone()));
                let ba = analyze(lang, b, &inner, ret);
                if ba.malformed() {
                    Analysis::Malformed
                } else {
                    lang.slam(*v, ba, ty)
                }
            },
            Type::Ground(_) => Analysis::Malformed,
        },
        _ => analyze_neutral(lang, term, decls),
    }
}

} // verus!
