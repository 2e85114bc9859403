//! Typing of terms, and the annotation pass that gives each node of a term
//! its size, its type and the variables in scope at its position.

use crate::assoc::{find, lemma_find_at, lemma_find_none};
use crate::context::{Context, Reduction};
use crate::term::Term;
use crate::types::{clone_decls, Identifier, Type, VarDecl};
use vstd::prelude::*;

verus! {

/// What is known of one node of a term.
#[derive(Debug)]
pub struct Annotation {
    size: usize,
    ty: Type,
    decls: Vec<VarDecl>,
}

/// An [`Annotation`] as a plain value.
pub struct AnnotationView {
    pub size: nat,
    pub ty: Type,
    pub decls: Seq<VarDecl>,
}

impl View for Annotation {
    type V = AnnotationView;

    closed spec fn view(&self) -> AnnotationView {
        AnnotationView { size: self.size as nat, ty: self.ty, decls: self.decls@ }
    }
}

impl Annotation {
    /// Number of nodes of the subterm.
    pub fn size(&self) -> (n: usize)
        ensures
            n == self@.size,
    {
        self.size
    }

    /// Type of the subterm.
    pub fn ty(&self) -> (t: &Type)
        ensures
            *t == self@.ty,
    {
        &self.ty
    }

    /// The variables in scope at the subterm, outermost first.
    pub fn decls(&self) -> (d: &Vec<VarDecl>)
        ensures
            d@ == self@.decls,
    {
        &self.decls
    }

    /// An independent copy.
    pub fn deep_clone(&self) -> (a: Annotation)
        ensures
            a@ == self@,
    {
        Annotation { size: self.size, ty: self.ty.deep_clone(), decls: clone_decls(&self.decls) }
    }
}

/// The annotations of the nodes of a term, in pre-order: a node, then what is
/// below it, the function part of an application before the argument.
pub type Metadata = Vec<Annotation>;

/// The annotations in `meta` as plain values.
pub open spec fn meta_view(meta: Seq<Annotation>) -> Seq<AnnotationView> {
    Seq::new(meta.len(), |i: int| meta[i]@)
}

/// The type that `x` is declared with: by the variables in scope, the first
/// declaration of the name, else by the primitives.
pub open spec fn declared(cx: Seq<VarDecl>, decls: Seq<VarDecl>, x: Identifier) -> Option<Type> {
    match find(decls, x) {
        Some(ty) => Some(ty),
        None => find(cx, x),
    }
}

/// The annotations of the nodes of `t`, in pre-order, where `t` stands in the
/// scope `decls` and a term of type `expected` is wanted; `None` where `t`
/// cannot be annotated.
///
/// A value leaf has the type that is wanted. A variable has the type it is
/// declared with. An abstraction has the function type that is wanted, and
/// its body is wanted at the result type, with the bound variable in scope.
/// An application has the result type of its function part, of which no type
/// is wanted, and its argument is wanted at the argument type.
pub open spec fn annotations(
    cx: Seq<VarDecl>,
    decls: Seq<VarDecl>,
    t: Term,
    expected: Option<Type>,
) -> Option<Seq<AnnotationView>>
    decreases t,
{
    match t {
        Term::Val(_) => match expected {
            Some(ty) => Some(seq![AnnotationView { size: 1, ty, decls }]),
            None => None,
        },
        Term::Var(x) => match declared(cx, decls, x) {
            Some(ty) => Some(seq![AnnotationView { size: 1, ty, decls }]),
            None => None,
        },
        Term::Lam(v, b) => match expected {
            Some(Type::Fun(arg, ret)) => match annotations(
                cx,
                decls.push((v, *arg)),
                *b,
                Some(*ret),
            ) {
                Some(below) => Some(
                    seq![AnnotationView { size: t.size(), ty: Type::Fun(arg, ret), decls }] + below,
                ),
                None => None,
            },
            _ => None,
        },
        Term::App(f, a) => match annotations(cx, decls, *f, None) {
            Some(left) => match left[0].ty {
                Type::Fun(arg, ret) => match annotations(cx, decls, *a, Some(*arg)) {
                    Some(right) => Some(
                        seq![AnnotationView { size: t.size(), ty: *ret, decls }] + left + right,
                    ),
                    None => None,
                },
                Type::Ground(_) => None,
            },
            None => None,
        },
    }
}

/// The type of `t` in the scope `decls`, read off its head and arguments;
/// `None` where `t` is not a variable applied to well-typed arguments.
pub open spec fn synth(cx: Seq<VarDecl>, decls: Seq<VarDecl>, t: Term) -> Option<Type>
    decreases t, 0nat,
{
    match t {
        Term::Var(x) => declared(cx, decls, x),
        Term::App(f, a) => match synth(cx, decls, *f) {
            Some(Type::Fun(arg, ret)) => if check(cx, decls, *a, *arg) {
                Some(*ret)
            } else {
                None
            },
            _ => None,
        },
        _ => None,
    }
}

/// `t` has type `ty` in the scope `decls`.
pub open spec fn check(cx: Seq<VarDecl>, decls: Seq<VarDecl>, t: Term, ty: Type) -> bool
    decreases t, 1nat,
{
    match t {
        Term::Val(_) => true,
        Term::Lam(v, b) => match ty {
            Type::Fun(arg, ret) => check(cx, decls.push((v, *arg)), *b, *ret),
            Type::Ground(_) => false,
        },
        _ => synth(cx, decls, t) == Some(ty),
    }
}

/// There is one annotation for each node, and the first is that of the whole
/// term.
pub proof fn lemma_annotations_len(
    cx: Seq<VarDecl>,
    decls: Seq<VarDecl>,
    t: Term,
    expected: Option<Type>,
)
    requires
        annotations(cx, decls, t, expected) is Some,
    ensures
        annotations(cx, decls, t, expected).unwrap().len() == t.size(),
        annotations(cx, decls, t, expected).unwrap()[0].size == t.size(),
        annotations(cx, decls, t, expected).unwrap()[0].decls == decls,
    decreases t,
{
    match t {
        Term::Val(_) => {},
        Term::Var(_) => {},
        Term::Lam(v, b) => match expected {
            Some(Type::Fun(arg, ret)) => {
                lemma_annotations_len(cx, decls.push((v, *arg)), *b, Some(*ret));
            },
            _ => {},
        },
        Term::App(f, a) => {
            lemma_annotations_len(cx, decls, *f, None);
            let left = annotations(cx, decls, *f, None).unwrap();
            match left[0].ty {
                Type::Fun(arg, ret) => {
                    lemma_annotations_len(cx, decls, *a, Some(*arg));
                },
                Type::Ground(_) => {},
            }
        },
    }
}

/// A term that has a type can be annotated, whatever type is wanted of it,
/// and is annotated with that type.
pub proof fn lemma_synth_annotates(
    cx: Seq<VarDecl>,
    decls: Seq<VarDecl>,
    t: Term,
    ty: Type,
    expected: Option<Type>,
)
    requires
        synth(cx, decls, t) == Some(ty),
    ensures
        annotations(cx, decls, t, expected) is Some,
        annotations(cx, decls, t, expected).unwrap()[0].ty == ty,
    decreases t, 0nat,
{
    match t {
        Term::App(f, a) => {
            match synth(cx, decls, *f) {
                Some(Type::Fun(arg, ret)) => {
                    lemma_synth_annotates(cx, decls, *f, Type::Fun(arg, ret), None);
                    lemma_check_annotates(cx, decls, *a, *arg);
                },
                _ => {},
            }
        },
        _ => {},
    }
}

/// A term of type `ty` can be annotated where `ty` is wanted, and is
/// annotated with `ty`.
pub proof fn lemma_check_annotates(cx: Seq<VarDecl>, decls: Seq<VarDecl>, t: Term, ty: Type)
    requires
        check(cx, decls, t, ty),
    ensures
        annotations(cx, decls, t, Some(ty)) is Some,
        annotations(cx, decls, t, Some(ty)).unwrap()[0].ty == ty,
    decreases t, 1nat,
{
    match t {
        Term::Val(_) => {},
        Term::Lam(v, b) => match ty {
            Type::Fun(arg, ret) => {
                lemma_check_annotates(cx, decls.push((v, *arg)), *b, *ret);
            },
            Type::Ground(_) => {},
        },
        _ => {
            lemma_synth_annotates(cx, decls, t, ty, Some(ty));
        },
    }
}

/// The type that `x` is declared with.
fn lookup_decl<R: Reduction>(ctxt: &Context<R>, decls: &Vec<VarDecl>, x: Identifier) -> (r: Option<
    Type,
>)
    ensures
        r == declared(ctxt.decls(), decls@, x),
{
    let mut i: usize = 0;
    while i < decls.len()
        invariant
            i <= decls.len(),
            forall|j: int| 0 <= j < i ==> decls@[j].0 != x,
        decreases decls.len() - i,
    {
        if decls[i].0 == x {
            proof {
                lemma_find_at(decls@, x, i as int);
            }
            return Some(decls[i].1.deep_clone());
        }
        i += 1;
    }
    proof {
        lemma_find_none(decls@, x);
    }
    let mut k: usize = 0;
    while k < ctxt.len()
        invariant
            k <= ctxt@.len(),
            find(decls@, x) is None,
            forall|j: int| 0 <= j < k ==> ctxt@[j].0 != x,
        decreases ctxt@.len() - k,
    {
        if ctxt.entry(k).0 == x {
            proof {
                assert forall|j: int| 0 <= j < k implies ctxt.decls()[j].0 != x by {
                    assert(ctxt.decls()[j].0 == ctxt@[j].0);
                }
                lemma_find_at(ctxt.decls(), x, k as int);
            }
            return Some(ctxt.entry(k).1.ty.deep_clone());
        }
        k += 1;
    }
    proof {
        assert forall|j: int| 0 <= j < ctxt.decls().len() implies ctxt.decls()[j].0 != x by {
            assert(ctxt.decls()[j].0 == ctxt@[j].0);
        }
        lemma_find_none(ctxt.decls(), x);
    }
    None
}

/// Appends the annotations of the nodes of `term` to `meta`.
fn annotate<R: Reduction>(
    term: &Term,
    ctxt: &Context<R>,
    expected: Option<&Type>,
    meta: &mut Metadata,
    decls: &Vec<VarDecl>,
)
    requires
        term.size() <= usize::MAX,
        annotations(
            ctxt.decls(),
            decls@,
            *term,
            match expected {
                Some(ty) => Some(*ty),
                None => None,
            },
        ) is Some,
    ensures
        final(meta)@.len() == old(meta)@.len() + term.size(),
        meta_view(final(meta)@) == meta_view(old(meta)@) + annotations(
            ctxt.decls(),
            decls@,
            *term,
            match expected {
                Some(ty) => Some(*ty),
                None => None,
            },
        ).unwrap(),
    decreases *term,
{
    let ghost cx = ctxt.decls();
    let ghost want = match expected {
        Some(ty) => Some(*ty),
        None => None,
    };
    let ghost before = meta_view(meta@);
    let at = meta.len();
    proof {
        lemma_annotations_len(cx, decls@, *term, want);
    }
    match term {
        Term::Val(_) => {
            let ty = expected.unwrap().deep_clone();
            meta.push(Annotation { size: 1, ty, decls: clone_decls(decls) });
            proof {
                assert(meta_view(meta@) =~= before + annotations(cx, decls@, *term, want).unwrap());
            }
        },
        Term::Var(x) => {
            let ty = lookup_decl(ctxt, decls, *x).unwrap();
            meta.push(Annotation { size: 1, ty, decls: clone_decls(decls) });
            proof {
                assert(meta_view(meta@) =~= before + annotations(cx, decls@, *term, want).unwrap());
            }
        },
        Term::Lam(v, b) => {
            let ty = expected.unwrap();
            match ty {
                Type::Fun(arg, ret) => {
                    let mut body_decls = clone_decls(decls);
                    body_decls.push((*v, arg.deep_clone()));
                    let ghost below = annotations(cx, body_decls@, **b, Some(**ret)).unwrap();
                    proof {
                        lemma_annotations_len(cx, body_decls@, **b, Some(**ret));
                    }
                    // The place of this node; its size is filled in once the body is
                    // annotated.
                    meta.push(
                        Annotation { size: 1, ty: ty.deep_clone(), decls: clone_decls(decls) },
                    );
                    let ghost pushed = meta_view(meta@);
                    let first = meta.len();
                    annotate(b, ctxt, Some(&**ret), meta, &body_decls);
                    proof {
                        assert(meta_view(meta@)[at + 1] == (pushed + below)[at + 1]);
                        assert(meta@[at + 1]@ == below[0]);
                    }
                    let size = 1 + meta[first].size;
                    let ghost filled = meta_view(meta@);
                    meta.set(
                        at,
                        Annotation { size, ty: ty.deep_clone(), decls: clone_decls(decls) },
                    );
                    proof {
                        let now = meta_view(meta@);
                        let goal = before + (seq![
                            AnnotationView { size: term.size(), ty: *ty, decls: decls@ },
                        ] + below);
                        assert(now.len() == goal.len());
                        assert forall|k: int| 0 <= k < now.len() implies now[k] == goal[k] by {
                            if k < at {
                                assert(filled[k] == (pushed + below)[k]);
                                assert(pushed[k] == before[k]);
                            } else if k > at {
                                assert(filled[k] == (pushed + below)[k]);
                            }
                        }
                        assert(now =~= goal);
                    }
                },
                Type::Ground(_) => {},
            }
        },
        Term::App(f, a) => {
            proof {
                lemma_annotations_len(cx, decls@, **f, None);
            }
            let ghost left = annotations(cx, decls@, **f, None).unwrap();
            // The place of this node, filled in once its parts are annotated.
            meta.push(Annotation { size: 1, ty: Type::Ground(0), decls: Vec::new() });
            let ghost pushed = meta_view(meta@);
            let first = meta.len();
            annotate(f, ctxt, None, meta, decls);
            let ghost with_left = meta_view(meta@);
            proof {
                assert(with_left[at + 1] == (pushed + left)[at + 1]);
                assert(meta@[at + 1]@ == left[0]);
            }
            let f_size = meta[first].size;
            let (arg, ret) = match &meta[first].ty {
                Type::Fun(arg, ret) => (arg.deep_clone(), ret.deep_clone()),
                Type::Ground(_) => unreached(),
            };
            let ghost right = annotations(cx, decls@, **a, Some(arg)).unwrap();
            proof {
                lemma_annotations_len(cx, decls@, **a, Some(arg));
            }
            let mid = meta.len();
            annotate(a, ctxt, Some(&arg), meta, decls);
            let ghost with_right = meta_view(meta@);
            proof {
                assert(with_right[mid as int] == (with_left + right)[mid as int]);
                assert(meta@[mid as int]@ == right[0]);
            }
            let a_size = meta[mid].size;
            meta.set(
                at,
                Annotation { size: 1 + f_size + a_size, ty: ret, decls: clone_decls(decls) },
            );
            proof {
                let now = meta_view(meta@);
                let goal = before + (seq![
                    AnnotationView { size: term.size(), ty: ret, decls: decls@ },
                ] + left + right);
                assert(now.len() == goal.len());
                assert forall|k: int| 0 <= k < now.len() implies now[k] == goal[k] by {
                    if k < at {
                        assert(with_right[k] == (with_left + right)[k]);
                        assert(with_left[k] == (pushed + left)[k]);
                        assert(pushed[k] == before[k]);
                    } else if k > at && k < mid {
                        assert(with_right[k] == (with_left + right)[k]);
                        assert(with_left[k] == (pushed + left)[k]);
                    } else if k >= mid {
                        assert(with_right[k] == (with_left + right)[k]);
                    }
                }
                assert(now =~= goal);
            }
        },
    }
}

/// The annotations of the nodes of `term`, in pre-order, where `term` is
/// closed but for the primitives of `ctxt` and a term of type `ty` is wanted.
pub fn annotate_term<R: Reduction>(term: &Term, ctxt: &Context<R>, ty: &Type) -> (meta: Metadata)
    requires
        term.size() <= usize::MAX,
        annotations(ctxt.decls(), Seq::empty(), *term, Some(*ty)) is Some,
    ensures
        meta_view(meta@) == annotations(ctxt.decls(), Seq::empty(), *term, Some(*ty)).unwrap(),
        meta@.len() == term.size(),
{
    let mut meta: Metadata = Vec::new();
    let decls: Vec<VarDecl> = Vec::new();
    annotate(term, ctxt, Some(ty), &mut meta, &decls);
    proof {
        lemma_annotations_len(ctxt.decls(), Seq::empty(), *term, Some(*ty));
        assert(meta_view(Seq::<Annotation>::empty()) + annotations(
            ctxt.decls(),
            Seq::empty(),
            *term,
            Some(*ty),
        ).unwrap() =~= annotations(ctxt.decls(), Seq::empty(), *term, Some(*ty)).unwrap());
    }
    meta
}

/// The type of `term` in the scope `decls`, read off its head and arguments:
/// see [`synth`].
pub fn synth_type<R: Reduction>(term: &Term, ctxt: &Context<R>, decls: &Vec<VarDecl>) -> (r: Option<
    Type,
>)
    ensures
        r == synth(ctxt.decls(), decls@, *term),
    decreases *term, 0nat,
{
    match term {
        Term::Var(x) => lookup_decl(ctxt, decls, *x),
        Term::App(f, a) => match synth_type(f, ctxt, decls) {
            Some(Type::Fun(arg, ret)) => {
                if has_type(a, ctxt, decls, &arg) {
                    Some(*ret)
                } else {
                    None
                }
            },
            _ => None,
        },
        _ => None,
    }
}

/// Whether `term` has type `ty` in the scope `decls`: see [`check`].
pub fn has_type<R: Reduction>(
    term: &Term,
    ctxt: &Context<R>,
    decls: &Vec<VarDecl>,
    ty: &Type,
) -> (r: bool)
    ensures
        r == check(ctxt.decls(), decls@, *term, *ty),
    decreases *term, 1nat,
{
    match term {
        Term::Val(_) => true,
        Term::Lam(v, b) => match ty {
            Type::Fun(arg, ret) => {
                let mut inner = clone_decls(decls);
                inner.push((*v, arg.deep_clone()));
                has_type(b, ctxt, &inner, ret)
            },
            Type::Ground(_) => false,
        },
        _ => match synth_type(term, ctxt, decls) {
            Some(found) => found.same(ty),
            None => false,
        },
    }
}

} // verus!
