//! The mutation kernel of the Metropolis-Hastings search: how a proposal is
//! made from a term, and what the chain keeps.

use crate::annotate::{
    annotate_term, annotations, check, has_type, lemma_check_annotates, meta_view, Annotation,
    AnnotationView, Metadata,
};
use crate::context::prim_decls;
use crate::language::{Analysis, Language};
use crate::random::random_below;
use crate::search::{all_terms, Env, Item};
use crate::size_cache::{sort_decls, SizeCache};
use crate::term::Term;
use crate::types::{clone_decls, Type, VarDecl};
use vstd::prelude::*;

verus! {

/// Out of a hundred proposals, how many replace a variable by another.
pub const REPLACE_VAR: usize = 50;

/// Out of a hundred proposals, how many replace a small subterm by another
/// of the same size.
pub const REPLACE_SMALL: usize = 40;

/// How often progress is reported, if at all.
#[derive(Clone, Copy)]
pub struct Options {
    pub print_freq: Option<usize>,
}

impl Default for Options {
    fn default() -> (o: Options)
        ensures
            o.print_freq == Some(100usize),
    {
        Options { print_freq: Some(100) }
    }
}

impl Options {
    /// Whether progress is reported at iteration `i`: at every multiple of
    /// the frequency, where there is one and it is not zero.
    pub fn reports(&self, i: usize) -> (r: bool)
        ensures
            r == (match self.print_freq {
                Some(freq) => freq != 0 && i % freq == 0,
                None => false,
            }),
    {
        match self.print_freq {
            Some(freq) => freq != 0 && i % freq == 0,
            None => false,
        }
    }
}

/// The kinds of proposal.
#[derive(Debug, Clone, Copy, PartialEq, Eq, Structural)]
pub enum MutationTy {
    /// A variable is replaced by another of the same type.
    HVar,
    /// A small subterm is replaced by another of the same size.
    Small,
    /// A subterm is replaced by another, possibly of another size.
    Large,
}

impl MutationTy {
    /// The kind that a draw below a hundred stands for: the first
    /// [`REPLACE_VAR`] draws for `HVar`, the next [`REPLACE_SMALL`] for
    /// `Small`, the rest for `Large`.
    pub open spec fn of_draw(draw: usize) -> MutationTy {
        if draw < REPLACE_VAR {
            MutationTy::HVar
        } else if draw < REPLACE_VAR + REPLACE_SMALL {
            MutationTy::Small
        } else {
            MutationTy::Large
        }
    }

    /// The kind that a draw below a hundred stands for.
    pub fn for_draw(draw: usize) -> (kind: MutationTy)
        ensures
            kind == Self::of_draw(draw),
    {
        if draw < REPLACE_VAR {
            MutationTy::HVar
        } else if draw < REPLACE_VAR + REPLACE_SMALL {
            MutationTy::Small
        } else {
            MutationTy::Large
        }
    }

    /// Draws the kind of the next proposal.
    pub fn choose_replacement_kind() -> (kind: MutationTy)
        ensures
            exists|draw: usize| draw < 100 && kind == Self::of_draw(draw),
    {
        let draw = random_below(100);
        Self::for_draw(draw)
    }
}

/// `size` lies in the window from `min_size` to `max_size`.
pub open spec fn in_window(size: nat, min_size: usize, max_size: usize) -> bool {
    min_size <= size <= max_size
}

/// How many of the annotated nodes have a size in the window.
pub open spec fn window_count(meta: Seq<AnnotationView>, min_size: usize, max_size: usize) -> nat
    decreases meta.len(),
{
    if meta.len() == 0 {
        0
    } else {
        window_count(meta.drop_last(), min_size, max_size) + if in_window(
            meta.last().size,
            min_size,
            max_size,
        ) {
            1nat
        } else {
            0nat
        }
    }
}

/// How many nodes of the annotated term have a size in the window.
pub fn count_subnodes(meta: &Metadata, min_size: usize, max_size: usize) -> (count: usize)
    ensures
        count == window_count(meta_view(meta@), min_size, max_size),
{
    let mut count: usize = 0;
    let mut i: usize = 0;
    while i < meta.len()
        invariant
            i <= meta.len(),
            count <= i,
            count == window_count(meta_view(meta@).take(i as int), min_size, max_size),
        decreases meta.len() - i,
    {
        proof {
            let all = meta_view(meta@);
            assert(all.take(i as int + 1).drop_last() =~= all.take(i as int));
            assert(all.take(i as int + 1).last() == meta@[i as int]@);
        }
        let size = meta[i].size();
        if min_size <= size && size <= max_size {
            count += 1;
        }
        i += 1;
    }
    proof {
        assert(meta_view(meta@).take(meta.len() as int) =~= meta_view(meta@));
    }
    count
}

/// Picks a node of `term` whose size lies in the window, each with the same
/// chance, by one pass over the nodes in pre-order: the `k`-th node in the
/// window takes the place of the one picked before with chance one in `k`.
///
/// Returns the number of the node, counted from one in pre-order, with its
/// annotation, and how many nodes lie in the window. Where none does, the
/// number is zero and the annotation is that of the root.
pub fn random_subnode(term: &Term, meta: &Metadata, min_size: usize, max_size: usize) -> (r: (
    usize,
    Annotation,
    usize,
))
    requires
        meta@.len() == term.size(),
    ensures
        r.2 == window_count(meta_view(meta@), min_size, max_size),
        r.2 == 0 ==> r.0 == 0 && r.1@ == meta@[0]@,
        r.2 > 0 ==> 1 <= r.0 <= term.size() && r.1@ == meta@[r.0 - 1]@ && in_window(
            r.1@.size,
            min_size,
            max_size,
        ),
{
    let mut selected_id: usize = 0;
    let mut small_counter: usize = 0;
    let mut i: usize = 0;
    while i < meta.len()
        invariant
            i <= meta.len(),
            meta@.len() > 0,
            small_counter <= i,
            small_counter == window_count(meta_view(meta@).take(i as int), min_size, max_size),
            small_counter == 0 ==> selected_id == 0,
            small_counter > 0 ==> 1 <= selected_id <= i && in_window(
                meta@[selected_id - 1]@.size,
                min_size,
                max_size,
            ),
        decreases meta.len() - i,
    {
        proof {
            let all = meta_view(meta@);
            assert(all.take(i as int + 1).drop_last() =~= all.take(i as int));
            assert(all.take(i as int + 1).last() == meta@[i as int]@);
        }
        let size = meta[i].size();
        if min_size <= size && size <= max_size {
            small_counter += 1;
            if random_below(small_counter) == 0 {
                selected_id = i + 1;
            }
        }
        i += 1;
    }
    proof {
        assert(meta_view(meta@).take(meta.len() as int) =~= meta_view(meta@));
    }
    let annotation = if selected_id == 0 {
        meta[0].deep_clone()
    } else {
        meta[selected_id - 1].deep_clone()
    };
    (selected_id, annotation, small_counter)
}

/// The term with the node number `id`, counted from one in pre-order,
/// replaced by `src`, where `at` nodes come before the root of `t`; `t`
/// itself where no node of it has that number.
pub open spec fn replace_at(t: Term, at: int, id: int, src: Term) -> Term
    decreases t,
{
    if at + 1 == id {
        src
    } else {
        match t {
            Term::Lam(v, b) => Term::Lam(v, Box::new(replace_at(*b, at + 1, id, src))),
            Term::App(f, a) => Term::App(
                Box::new(replace_at(*f, at + 1, id, src)),
                Box::new(replace_at(*a, at + 1 + f.size(), id, src)),
            ),
            _ => t,
        }
    }
}

/// The term that [`replace_at`] gives, with what the language makes of it:
/// the analysis of `src` is `src_analysis`, and that of every other node is
/// what the hook for its kind makes of the analyses below it, at the type
/// that `meta` holds for the node. `None` where a node below the root of the
/// result is malformed.
pub open spec fn rebuilt<L: Language>(
    lang: L,
    t: Term,
    meta: Seq<AnnotationView>,
    at: int,
    id: int,
    src: Term,
    src_analysis: Analysis<L::Semantics>,
) -> Option<Item<L::Semantics>>
    decreases t,
{
    if at + 1 == id {
        Some((src, src_analysis))
    } else {
        match t {
            Term::Val(v) => Some((t, lang.sval_spec(v, meta[at].ty))),
            Term::Var(x) => Some((t, lang.svar_spec(x, meta[at].ty))),
            Term::Lam(v, b) => match rebuilt(lang, *b, meta, at + 1, id, src, src_analysis) {
                Some((body, body_analysis)) => if body_analysis is Malformed {
                    None
                } else {
                    Some(
                        (
                            Term::Lam(v, Box::new(body)),
                            lang.slam_spec(v, body_analysis, meta[at].ty),
                        ),
                    )
                },
                None => None,
            },
            Term::App(f, a) => match rebuilt(lang, *f, meta, at + 1, id, src, src_analysis) {
                Some((l, l_analysis)) => match rebuilt(
                    lang,
                    *a,
                    meta,
                    at + 1 + f.size(),
                    id,
                    src,
                    src_analysis,
                ) {
                    Some((r, r_analysis)) => if l_analysis is Malformed || r_analysis
                        is Malformed {
                        None
                    } else {
                        Some(
                            (
                                Term::App(Box::new(l), Box::new(r)),
                                lang.sapp_spec(l_analysis, r_analysis, meta[at].ty),
                            ),
                        )
                    },
                    None => None,
                },
                None => None,
            },
        }
    }
}

/// The term of [`rebuilt`] is that of [`replace_at`].
pub proof fn lemma_rebuilt_term<L: Language>(
    lang: L,
    t: Term,
    meta: Seq<AnnotationView>,
    at: int,
    id: int,
    src: Term,
    src_analysis: Analysis<L::Semantics>,
)
    requires
        rebuilt(lang, t, meta, at, id, src, src_analysis) is Some,
    ensures
        rebuilt(lang, t, meta, at, id, src, src_analysis).unwrap().0 == replace_at(t, at, id, src),
    decreases t,
{
    if at + 1 != id {
        match t {
            Term::Lam(v, b) => {
                lemma_rebuilt_term(lang, *b, meta, at + 1, id, src, src_analysis);
            },
            Term::App(f, a) => {
                lemma_rebuilt_term(lang, *f, meta, at + 1, id, src, src_analysis);
                lemma_rebuilt_term(lang, *a, meta, at + 1 + f.size(), id, src, src_analysis);
            },
            _ => {},
        }
    }
}

/// [`replace_subnode`] below the root: `at` nodes come before the root of
/// `dest`. Returns the number of nodes of `dest` too.
fn replace_below<L: Language>(
    lang: &L,
    dest: &Term,
    dest_meta: &Metadata,
    at: usize,
    node_id: usize,
    src: &Term,
    src_analysis: &Analysis<L::Semantics>,
) -> (r: (Option<Item<L::Semantics>>, usize))
    requires
        at + dest.size() <= dest_meta@.len(),
    ensures
        r.0 == rebuilt(
            *lang,
            *dest,
            meta_view(dest_meta@),
            at as int,
            node_id as int,
            *src,
            *src_analysis,
        ),
        r.1 == dest.size(),
    decreases *dest,
{
    let ghost meta = meta_view(dest_meta@);
    let total = dest_meta.len();
    proof {
        dest.lemma_size_positive();
    }
    if at + 1 == node_id {
        return (Some((src.deep_clone(), lang.copy_analysis(src_analysis))), dest.node_count());
    }
    let ty = dest_meta[at].ty();
    proof {
        assert(meta[at as int] == dest_meta@[at as int]@);
    }
    match dest {
        Term::Val(v) => (Some((dest.deep_clone(), lang.sval(v, ty))), 1),
        Term::Var(x) => (Some((dest.deep_clone(), lang.svar(*x, ty))), 1),
        Term::Lam(v, b) => {
            let (below, n) = replace_below(lang, b, dest_meta, at + 1, node_id, src, src_analysis);
            match below {
                Some((body, body_analysis)) => {
                    if body_analysis.malformed() {
                        (None, n + 1)
                    } else {
                        (Some((Term::lam(*v, body), lang.slam(*v, body_analysis, ty))), n + 1)
                    }
                },
                None => (None, n + 1),
            }
        },
        Term::App(f, a) => {
            let (left, n) = replace_below(lang, f, dest_meta, at + 1, node_id, src, src_analysis);
            let (right, m) = replace_below(
                lang,
                a,
                dest_meta,
                at + 1 + n,
                node_id,
                src,
                src_analysis,
            );
            match left {
                Some((l, l_analysis)) => match right {
                    Some((r, r_analysis)) => {
                        if l_analysis.malformed() || r_analysis.malformed() {
                            (None, n + m + 1)
                        } else {
                            (
                                Some((Term::app(l, r), lang.sapp(l_analysis, r_analysis, ty))),
                                n + m + 1,
                            )
                        }
                    },
                    None => (None, n + m + 1),
                },
                None => (None, n + m + 1),
            }
        },
    }
}

/// Replaces the node number `node_id` of `dest`, counted from one in
/// pre-order, by `src`, and analyses the result anew: see [`rebuilt`].
/// `dest_meta` holds the annotations of the nodes of `dest`.
pub fn replace_subnode<L: Language>(
    lang: &L,
    dest: &Term,
    dest_meta: &Metadata,
    node_id: usize,
    src: Term,
    src_analysis: Analysis<L::Semantics>,
) -> (r: Option<Item<L::Semantics>>)
    requires
        dest_meta@.len() == dest.size(),
    ensures
        r == rebuilt(*lang, *dest, meta_view(dest_meta@), 0, node_id as int, src, src_analysis),
        r matches Some(item) ==> item.0 == replace_at(*dest, 0, node_id as int, src),
{
    let (r, _) = replace_below(lang, dest, dest_meta, 0, node_id, &src, &src_analysis);
    proof {
        if r is Some {
            lemma_rebuilt_term(
                *lang,
                *dest,
                meta_view(dest_meta@),
                0,
                node_id as int,
                src,
                src_analysis,
            );
        }
    }
    r
}

/// The factors of the chance `g` of one proposal: out of how many nodes the
/// replaced one was picked, the size that was drawn for the replacement,
/// the size of what was replaced, and out of how many terms the replacement
/// was picked.
#[derive(Debug, Clone, Copy, PartialEq, Eq, Structural)]
pub struct GTerms {
    pub subnode_count: usize,
    pub drawn_size: usize,
    pub replaced_size: usize,
    pub candidates: usize,
}

/// The ratio of the chance of the way back to the chance of the proposal.
#[derive(Debug, Clone, Copy, PartialEq, Eq, Structural)]
pub enum GRatio {
    /// The ratio is one: the proposal is as likely as the way back.
    One,
    /// The ratio of the chance of `backward` to that of `forward`.
    Terms { forward: GTerms, backward: GTerms },
}

/// A proposal: a term with its analysis, the kind of mutation that made it,
/// and the ratio that the acceptance test needs.
pub struct Proposal<S> {
    pub term: Term,
    pub analysis: Analysis<S>,
    pub kind: MutationTy,
    pub ratio: GRatio,
}

/// What the search leaves to its caller: the scores, and the decisions and
/// draws that take real numbers.
///
/// A judge rates every term: it gives it a score, or none where the term is
/// a solution. It prefers some scores to others. Neither changes while the
/// search runs. Nothing is known of which proposals it accepts, nor of the
/// sizes that it draws.
///
/// A verified judge states its `rating` and `prefers`. The bodies given
/// here only stand in for them where a judge is written in unverified
/// code, which cannot state them: of such a judge nothing is proved.
pub trait Judge {
    /// A score; the greater, the better.
    type Score: Copy;

    /// The score of `term`, or `None` where `term` is a solution: a term
    /// that the search ends with.
    open spec fn rating(&self, term: Term) -> Option<Self::Score> {
        None
    }

    /// `score` is greater than `best`.
    open spec fn prefers(&self, score: Self::Score, best: Self::Score) -> bool {
        false
    }

    /// The score of `term`, or `None` where `term` is a solution and the
    /// search ends.
    fn score(&mut self, term: &Term) -> (r: Option<Self::Score>)
        ensures
            r == old(self).rating(*term),
            forall|t: Term| final(self).rating(t) == old(self).rating(t),
            forall|a: Self::Score, b: Self::Score|
                final(self).prefers(a, b) == old(self).prefers(a, b),
    ;

    /// Whether `score` is greater than `best`, the best score so far.
    fn improves(&mut self, best: Self::Score, score: Self::Score) -> (r: bool)
        ensures
            r == old(self).prefers(score, best),
            forall|t: Term| final(self).rating(t) == old(self).rating(t),
            forall|a: Self::Score, b: Self::Score|
                final(self).prefers(a, b) == old(self).prefers(a, b),
    ;

    /// Whether the chain moves on to a proposal of score `proposal`, from a
    /// term of score `current`.
    fn accepts(&mut self, current: Self::Score, proposal: Self::Score, ratio: GRatio) -> (r: bool)
        ensures
            forall|t: Term| final(self).rating(t) == old(self).rating(t),
            forall|a: Self::Score, b: Self::Score|
                final(self).prefers(a, b) == old(self).prefers(a, b),
    ;

    /// The size of the term that takes the place of one of `replaced_size`
    /// nodes in a large mutation, where at most `large_size` are replaced.
    fn large_size(&mut self, replaced_size: usize, large_size: usize) -> (r: usize)
        ensures
            forall|t: Term| final(self).rating(t) == old(self).rating(t),
            forall|a: Self::Score, b: Self::Score|
                final(self).prefers(a, b) == old(self).prefers(a, b),
    ;

    /// Takes note that iteration `iteration` of `iterations` begins, at the
    /// term `candidate`.
    fn progress(&mut self, iteration: usize, iterations: usize, candidate: &Term)
        ensures
            forall|t: Term| final(self).rating(t) == old(self).rating(t),
            forall|a: Self::Score, b: Self::Score|
                final(self).prefers(a, b) == old(self).prefers(a, b),
    ;
}

/// Both judges rate every term alike and prefer the same scores.
pub open spec fn same_judgement<J: Judge>(a: J, b: J) -> bool {
    &&& forall|t: Term| a.rating(t) == b.rating(t)
    &&& forall|x: J::Score, y: J::Score| a.prefers(x, y) == b.prefers(x, y)
}

/// The smallest and the largest size of a subterm that a mutation of kind
/// `kind` replaces.
pub open spec fn window_of<L: Language>(lang: L, kind: MutationTy) -> (usize, usize) {
    match kind {
        MutationTy::HVar => (1usize, 1usize),
        MutationTy::Small => (2usize, lang.small_size_spec()),
        MutationTy::Large => (2usize, lang.large_size_spec()),
    }
}

/// `p` is `term` with the node at index `at`, counted from zero in
/// pre-order, replaced by `src`: the size of that node lies in the window of
/// the kind of `p`, and `src` is a term that the enumeration yields for the
/// type and the scope of that node, brought into order by name, and for the
/// size `n`, which is the size of the node unless the kind is `Large`.
pub open spec fn proposal_from<L: Language>(
    lang: L,
    term: Term,
    ty: Type,
    at: int,
    n: nat,
    src: Item<L::Semantics>,
    p: Proposal<L::Semantics>,
) -> bool {
    let meta = annotations(prim_decls(lang.context_spec()), Seq::empty(), term, Some(ty)).unwrap();
    &&& 0 <= at < term.size()
    &&& in_window(meta[at].size, window_of(lang, p.kind).0, window_of(lang, p.kind).1)
    &&& p.kind != MutationTy::Large ==> n == meta[at].size
    &&& all_terms(Env { lang, vars: sort_decls(meta[at].decls) }, meta[at].ty, n).contains(src)
    &&& rebuilt(lang, term, meta, 0, at + 1, src.0, src.1) == Some((p.term, p.analysis))
}

/// `p` is a proposal that a mutation of `term`, of type `ty`, can make: one
/// subterm is replaced ([`proposal_from`]), and the result is beta-normal
/// and has type `ty`. The ratio is one unless the kind is `Large`; then none
/// of the counts that it is made of is zero.
pub open spec fn valid_proposal<L: Language>(
    lang: L,
    term: Term,
    ty: Type,
    p: Proposal<L::Semantics>,
) -> bool {
    &&& exists|at: int, n: nat, src: Item<L::Semantics>| #[trigger]
        proposal_from(lang, term, ty, at, n, src, p)
    &&& p.term.is_normal()
    &&& p.term.size() <= usize::MAX
    &&& check(prim_decls(lang.context_spec()), Seq::empty(), p.term, ty)
    &&& match p.ratio {
        GRatio::One => p.kind != MutationTy::Large,
        GRatio::Terms { forward, backward } => p.kind == MutationTy::Large
            && forward.subnode_count > 0 && forward.candidates > 0 && backward.subnode_count > 0
            && backward.candidates > 0 && forward.drawn_size == backward.replaced_size
            && forward.replaced_size == backward.drawn_size,
    }
}

/// A proposal that is not of the large kind is as likely as the way back:
/// its ratio is exactly one.
pub proof fn lemma_symmetric_ratio<L: Language>(
    lang: L,
    term: Term,
    ty: Type,
    p: Proposal<L::Semantics>,
)
    requires
        valid_proposal(lang, term, ty, p),
        p.kind == MutationTy::HVar || p.kind == MutationTy::Small,
    ensures
        p.ratio == GRatio::One,
{
}

/// Every proposal is beta-normal and has the type of the term that it was
/// made from, so every term that a chain moves on to is.
pub proof fn lemma_proposal_valid<L: Language>(
    lang: L,
    term: Term,
    ty: Type,
    p: Proposal<L::Semantics>,
)
    requires
        valid_proposal(lang, term, ty, p),
    ensures
        p.term.is_normal(),
        p.term.beta_step() == p.term,
        check(prim_decls(lang.context_spec()), Seq::empty(), p.term, ty),
        chain_term(lang, ty, term, p.term),
{
    p.term.lemma_normal_step();
}

/// The draws of a mutation of kind `kind` are ones that can be made: the
/// node at index `at`, counted from zero in pre-order, has a size in the
/// window of the kind; `n` is the size of that node unless the kind is
/// `Large`; and `pick` is a term that the enumeration yields for the type
/// and the scope of the node, brought into order by name, and for the size
/// `n`, or nothing where there is no such term.
pub open spec fn drawn<L: Language>(
    lang: L,
    term: Term,
    ty: Type,
    kind: MutationTy,
    at: int,
    n: usize,
    pick: Option<Item<L::Semantics>>,
) -> bool {
    let meta = annotations(prim_decls(lang.context_spec()), Seq::empty(), term, Some(ty)).unwrap();
    let all = all_terms(Env { lang, vars: sort_decls(meta[at].decls) }, meta[at].ty, n as nat);
    &&& 0 <= at < term.size()
    &&& in_window(meta[at].size, window_of(lang, kind).0, window_of(lang, kind).1)
    &&& kind != MutationTy::Large ==> n == meta[at].size
    &&& match pick {
        Some(src) => all.contains(src),
        None => all.len() == 0,
    }
}

/// The factors of the ratio of a large mutation that puts a term of `n`
/// nodes in the place of the node at index `at` of `term` and so makes
/// `made`: on the way there a node of `term` is picked and a term of `n`
/// nodes drawn, on the way back a node of `made` and a term of the size of
/// what was replaced.
pub open spec fn large_ratio<L: Language>(
    lang: L,
    term: Term,
    ty: Type,
    at: int,
    n: usize,
    made: Term,
) -> (GTerms, GTerms) {
    let cx = prim_decls(lang.context_spec());
    let meta = annotations(cx, Seq::empty(), term, Some(ty)).unwrap();
    let back = annotations(cx, Seq::empty(), made, Some(ty)).unwrap();
    let window = window_of(lang, MutationTy::Large);
    let env = Env { lang, vars: sort_decls(meta[at].decls) };
    (
        GTerms {
            subnode_count: window_count(meta, window.0, window.1) as usize,
            drawn_size: n,
            replaced_size: meta[at].size as usize,
            candidates: all_terms(env, meta[at].ty, n as nat).len() as usize,
        },
        GTerms {
            subnode_count: window_count(back, window.0, window.1) as usize,
            drawn_size: meta[at].size as usize,
            replaced_size: n,
            candidates: all_terms(env, meta[at].ty, meta[at].size).len() as usize,
        },
    )
}

/// What a mutation of kind `kind` comes to once its draws are made: `pick`,
/// drawn for the size `n`, takes the place of the node at index `at` of
/// `term`, counted from zero in pre-order.
///
/// There is no proposal where nothing was drawn, where the language finds
/// the result malformed, or where the result is not beta-normal, too large
/// to measure or not of type `ty`; for a large mutation also where there
/// is no way back: no term of the size of what was replaced, or no node of
/// the result in the window.
pub open spec fn proposal_of<L: Language>(
    lang: L,
    term: Term,
    ty: Type,
    kind: MutationTy,
    at: int,
    n: usize,
    pick: Option<Item<L::Semantics>>,
) -> Option<Proposal<L::Semantics>> {
    let cx = prim_decls(lang.context_spec());
    let meta = annotations(cx, Seq::empty(), term, Some(ty)).unwrap();
    match pick {
        None => None,
        Some(src) => match rebuilt(lang, term, meta, 0, at + 1, src.0, src.1) {
            None => None,
            Some(made) => if !made.0.is_normal() || made.0.size() > usize::MAX || !check(
                cx,
                Seq::empty(),
                made.0,
                ty,
            ) {
                None
            } else if kind == MutationTy::Large {
                let (forward, backward) = large_ratio(lang, term, ty, at, n, made.0);
                if backward.candidates == 0 || backward.subnode_count == 0 {
                    None
                } else {
                    Some(
                        Proposal {
                            term: made.0,
                            analysis: made.1,
                            kind,
                            ratio: GRatio::Terms { forward, backward },
                        },
                    )
                }
            } else {
                Some(Proposal { term: made.0, analysis: made.1, kind, ratio: GRatio::One })
            },
        },
    }
}

/// `r` is what a mutation of kind `kind` of `term` can come to: nothing
/// where no subterm lies in the window of the kind, and else what
/// [`proposal_of`] gives for draws that can be made.
pub open spec fn mutation<L: Language>(
    lang: L,
    term: Term,
    ty: Type,
    kind: MutationTy,
    r: Option<Proposal<L::Semantics>>,
) -> bool {
    let meta = annotations(prim_decls(lang.context_spec()), Seq::empty(), term, Some(ty)).unwrap();
    if window_count(meta, window_of(lang, kind).0, window_of(lang, kind).1) == 0 {
        r is None
    } else {
        exists|at: int, n: usize, pick: Option<Item<L::Semantics>>| #[trigger]
            drawn(lang, term, ty, kind, at, n, pick) && r == proposal_of(
                lang,
                term,
                ty,
                kind,
                at,
                n,
                pick,
            )
    }
}

/// Makes the proposal of kind `kind` from `term` once the draws are made:
/// `replacement`, drawn for the size `new_size`, takes the place of the
/// node number `node_id`, counted from one in pre-order. `meta` holds the
/// annotations of the nodes of `term`. See [`proposal_of`].
pub fn propose<L: Language>(
    lang: &L,
    term: &Term,
    ty: &Type,
    meta: &Metadata,
    cache: &mut SizeCache<L>,
    kind: MutationTy,
    node_id: usize,
    new_size: usize,
    replacement: Option<Item<L::Semantics>>,
) -> (r: Option<Proposal<L::Semantics>>)
    requires
        old(cache).wf(*lang),
        term.size() <= usize::MAX,
        annotations(prim_decls(lang.context_spec()), Seq::empty(), *term, Some(*ty)) is Some,
        meta_view(meta@) == annotations(
            prim_decls(lang.context_spec()),
            Seq::empty(),
            *term,
            Some(*ty),
        ).unwrap(),
        meta@.len() == term.size(),
        1 <= node_id <= term.size(),
    ensures
        final(cache).wf(*lang),
        r == proposal_of(*lang, *term, *ty, kind, node_id - 1, new_size, replacement),
{
    let ctxt = lang.context();
    proof {
        assert(meta_view(meta@)[node_id - 1] == meta@[node_id - 1]@);
    }
    let (src, src_analysis) = match replacement {
        Some(found) => found,
        None => {
            return None;
        },
    };
    let (proposal, analysis) = match replace_subnode(
        lang,
        term,
        meta,
        node_id,
        src,
        src_analysis,
    ) {
        Some(made) => made,
        None => {
            return None;
        },
    };
    if !proposal.in_beta_normal_form() {
        return None;
    }
    if proposal.size_checked().is_none() {
        return None;
    }
    let no_decls: Vec<VarDecl> = Vec::new();
    if !has_type(&proposal, &ctxt, &no_decls, ty) {
        return None;
    }
    let ratio = match kind {
        MutationTy::Large => {
            let (lo, hi) = (2, lang.large_size());
            let annotation = &meta[node_id - 1];
            let replaced_size = annotation.size();
            let old_count = cache.query_count(
                lang,
                clone_decls(annotation.decls()),
                annotation.ty(),
                replaced_size,
            );
            if old_count == 0 {
                return None;
            }
            proof {
                lemma_check_annotates(ctxt.decls(), Seq::empty(), proposal, *ty);
            }
            let proposal_meta = annotate_term(&proposal, &ctxt, ty);
            let back_count = count_subnodes(&proposal_meta, lo, hi);
            if back_count == 0 {
                return None;
            }
            let subnode_count = count_subnodes(meta, lo, hi);
            let new_count = cache.query_count(
                lang,
                clone_decls(annotation.decls()),
                annotation.ty(),
                new_size,
            );
            GRatio::Terms {
                forward: GTerms {
                    subnode_count,
                    drawn_size: new_size,
                    replaced_size,
                    candidates: new_count,
                },
                backward: GTerms {
                    subnode_count: back_count,
                    drawn_size: replaced_size,
                    replaced_size: new_size,
                    candidates: old_count,
                },
            }
        },
        _ => GRatio::One,
    };
    Some(Proposal { term: proposal, analysis, kind, ratio })
}

/// Makes a proposal of the given kind from `term`: picks a subterm whose
/// size lies in the window of the kind, draws a term of the same type and
/// scope from `cache`, of the same size or, for a large mutation, of the size
/// that `judge` draws, and puts it in the place of the subterm.
///
/// No proposal is made where no subterm lies in the window; else the draws
/// decide, as [`proposal_of`] says.
pub fn mutate_kind<L: Language, J: Judge>(
    lang: &L,
    term: &Term,
    ty: &Type,
    cache: &mut SizeCache<L>,
    judge: &mut J,
    kind: MutationTy,
) -> (r: Option<Proposal<L::Semantics>>)
    requires
        old(cache).wf(*lang),
        term.size() <= usize::MAX,
        annotations(prim_decls(lang.context_spec()), Seq::empty(), *term, Some(*ty)) is Some,
    ensures
        final(cache).wf(*lang),
        mutation(*lang, *term, *ty, kind, r),
        r matches Some(p) ==> p.kind == kind && valid_proposal(*lang, *term, *ty, p),
        same_judgement(*final(judge), *old(judge)),
{
    let ctxt = lang.context();
    let meta = annotate_term(term, &ctxt, ty);
    let (lo, hi) = match kind {
        MutationTy::HVar => (1, 1),
        MutationTy::Small => (2, lang.small_size()),
        MutationTy::Large => (2, lang.large_size()),
    };
    let (node_id, annotation, subnode_count) = random_subnode(term, &meta, lo, hi);
    if subnode_count == 0 {
        return None;
    }
    let replaced_size = annotation.size();
    let new_size = match kind {
        MutationTy::Large => judge.large_size(replaced_size, hi),
        _ => replaced_size,
    };
    let (new_count, replacement) = cache.sample(
        lang,
        clone_decls(annotation.decls()),
        annotation.ty(),
        new_size,
    );
    let r = propose(lang, term, ty, &meta, cache, kind, node_id, new_size, replacement);
    proof {
        assert(meta_view(meta@)[node_id - 1] == meta@[node_id - 1]@);
        assert(drawn(*lang, *term, *ty, kind, node_id - 1, new_size, replacement));
        if r is Some {
            assert(proposal_from(
                *lang,
                *term,
                *ty,
                node_id - 1,
                new_size as nat,
                replacement.unwrap(),
                r.unwrap(),
            ));
            assert(new_count > 0);
        }
    }
    r
}

/// Makes a proposal from `term`, of a kind that is drawn first: see
/// [`mutate_kind`].
pub fn mutate<L: Language, J: Judge>(
    lang: &L,
    term: &Term,
    ty: &Type,
    cache: &mut SizeCache<L>,
    judge: &mut J,
) -> (r: Option<Proposal<L::Semantics>>)
    requires
        old(cache).wf(*lang),
        term.size() <= usize::MAX,
        annotations(prim_decls(lang.context_spec()), Seq::empty(), *term, Some(*ty)) is Some,
    ensures
        final(cache).wf(*lang),
        exists|draw: usize|
            draw < 100 && mutation(*lang, *term, *ty, #[trigger] MutationTy::of_draw(draw), r),
        r matches Some(p) ==> valid_proposal(*lang, *term, *ty, p),
        same_judgement(*final(judge), *old(judge)),
{
    let kind = MutationTy::choose_replacement_kind();
    mutate_kind(lang, term, ty, cache, judge, kind)
}

/// The state of the chain: where it stands, and the best term so far.
pub struct Chain<S, V> {
    pub candidate: Term,
    pub score: V,
    pub best_candidate: Term,
    pub best_analysis: Analysis<S>,
    pub best_score: V,
}

impl<S, V: Copy> Chain<S, V> {
    /// The chain at `start`, whose score is `score`: it stands at `start`,
    /// which is also the best term so far, without analysis.
    pub open spec fn begun(start: Term, score: V) -> Self {
        Chain {
            candidate: start,
            score,
            best_candidate: start,
            best_analysis: Analysis::Unique,
            best_score: score,
        }
    }

    /// The chain after a proposal of score `score`: the proposal is the best
    /// so far where it `improved` on the best score, and the chain stands at
    /// it where it was `accepted`. The two are independent.
    pub open spec fn advanced(
        self,
        proposal: Proposal<S>,
        score: V,
        improved: bool,
        accepted: bool,
    ) -> Self {
        Chain {
            candidate: if accepted {
                proposal.term
            } else {
                self.candidate
            },
            score: if accepted {
                score
            } else {
                self.score
            },
            best_candidate: if improved {
                proposal.term
            } else {
                self.best_candidate
            },
            best_analysis: if improved {
                proposal.analysis
            } else {
                self.best_analysis
            },
            best_score: if improved {
                score
            } else {
                self.best_score
            },
        }
    }

    /// The chain at its start: see [`Chain::begun`].
    pub fn begin(start: &Term, score: V) -> (c: Self)
        ensures
            c == Self::begun(*start, score),
    {
        Chain {
            candidate: start.deep_clone(),
            score,
            best_candidate: start.deep_clone(),
            best_analysis: Analysis::Unique,
            best_score: score,
        }
    }

    /// The chain after a proposal: see [`Chain::advanced`].
    pub fn advance<L: Language<Semantics = S>>(
        &mut self,
        lang: &L,
        proposal: Proposal<S>,
        score: V,
        improved: bool,
        accepted: bool,
    )
        ensures
            *final(self) == old(self).advanced(proposal, score, improved, accepted),
    {
        if improved {
            self.best_analysis = lang.copy_analysis(&proposal.analysis);
            self.best_score = score;
            self.best_candidate = proposal.term.deep_clone();
        }
        if accepted {
            self.candidate = proposal.term;
            self.score = score;
        }
    }

    /// What the search returns where its budget is spent: the best term so
    /// far, with its analysis.
    pub fn into_best(self) -> (r: (Term, Analysis<S>))
        ensures
            r == (self.best_candidate, self.best_analysis),
    {
        (self.best_candidate, self.best_analysis)
    }
}

/// `t` is a term that the chain from `start` can stand at: `start` itself,
/// or a beta-normal term of type `ty`.
pub open spec fn chain_term<L: Language>(lang: L, ty: Type, start: Term, t: Term) -> bool {
    t == start || (t.is_normal() && t.size() <= usize::MAX && check(
        prim_decls(lang.context_spec()),
        Seq::empty(),
        t,
        ty,
    ))
}

/// One iteration of the search, as far as it is not the judge's rating that
/// decides: the proposal that was made, if one was, and whether the judge
/// accepted it.
pub struct Turn<S> {
    pub proposal: Option<Proposal<S>>,
    pub accepted: bool,
}

/// The turn ends the search: its proposal is a solution.
pub open spec fn ends<J: Judge, S>(judge: J, turn: Turn<S>) -> bool {
    turn.proposal matches Some(p) && judge.rating(p.term) is None
}

/// The chain after a turn. Where no proposal was made, or the proposal is a
/// solution, the chain is as it was. Else the proposal has a score, and the
/// chain is advanced by it: it is the best so far where the judge prefers
/// its score to the best score.
pub open spec fn turned<J: Judge, S>(judge: J, c: Chain<S, J::Score>, turn: Turn<S>) -> Chain<
    S,
    J::Score,
> {
    match turn.proposal {
        None => c,
        Some(p) => match judge.rating(p.term) {
            None => c,
            Some(score) => c.advanced(p, score, judge.prefers(score, c.best_score), turn.accepted),
        },
    }
}

/// The chain from `start`, whose score is `first`, after the turns.
pub open spec fn chain_after<J: Judge, S>(
    judge: J,
    start: Term,
    first: J::Score,
    turns: Seq<Turn<S>>,
) -> Chain<S, J::Score>
    decreases turns.len(),
{
    if turns.len() == 0 {
        Chain::begun(start, first)
    } else {
        turned(judge, chain_after(judge, start, first, turns.drop_last()), turns.last())
    }
}

/// The turn number `k` is one that the search can take after the turns
/// before it: what it proposes is a mutation, of a kind that can be drawn,
/// of the term that the chain stands at.
pub open spec fn turn_ok<L: Language, J: Judge>(
    lang: L,
    judge: J,
    ty: Type,
    start: Term,
    first: J::Score,
    turns: Seq<Turn<L::Semantics>>,
    k: int,
) -> bool {
    let at = chain_after(judge, start, first, turns.take(k)).candidate;
    exists|draw: usize|
        draw < 100 && mutation(lang, at, ty, #[trigger] MutationTy::of_draw(draw), turns[k].proposal)
}

/// The turns are a run of the search from `start`, whose score is `first`:
/// each is one that the search can take, and none but the last ends it.
pub open spec fn run<L: Language, J: Judge>(
    lang: L,
    judge: J,
    ty: Type,
    start: Term,
    first: J::Score,
    turns: Seq<Turn<L::Semantics>>,
) -> bool {
    forall|k: int|
        0 <= k < turns.len() ==> #[trigger] turn_ok(lang, judge, ty, start, first, turns, k) && (k
            + 1 < turns.len() ==> !ends(judge, turns[k]))
}

/// `r` is what the search returns after the turns, with a budget of
/// `iterations`: the number of turns, and the solution with its analysis
/// where the last turn proposed one; else the budget is spent, and `r` holds
/// the best term so far with its analysis.
pub open spec fn outcome<J: Judge, S>(
    judge: J,
    start: Term,
    first: J::Score,
    turns: Seq<Turn<S>>,
    iterations: usize,
    r: (usize, Term, Analysis<S>),
) -> bool {
    &&& r.0 == turns.len()
    &&& if turns.len() > 0 && ends(judge, turns.last()) {
        r.1 == turns.last().proposal.unwrap().term && r.2
            == turns.last().proposal.unwrap().analysis
    } else {
        let c = chain_after(judge, start, first, turns);
        r.0 == iterations && r.1 == c.best_candidate && r.2 == c.best_analysis
    }
}

/// `r` is a result of the search from `start` with a budget of
/// `iterations`. Where `start` is a solution, no iteration is spent and
/// `start` is returned without analysis. Else there is a run of the search
/// of which `r` is the outcome.
pub open spec fn searched<L: Language, J: Judge>(
    lang: L,
    judge: J,
    ty: Type,
    start: Term,
    iterations: usize,
    r: (usize, Term, Analysis<L::Semantics>),
) -> bool {
    match judge.rating(start) {
        None => r.0 == 0 && r.1 == start && r.2 == Analysis::<L::Semantics>::Unique,
        Some(first) => exists|turns: Seq<Turn<L::Semantics>>| #[trigger]
            run(lang, judge, ty, start, first, turns) && outcome(
                judge,
                start,
                first,
                turns,
                iterations,
                r,
            ),
    }
}

/// The outcome of a run is a result of the search.
pub proof fn lemma_searched<L: Language, J: Judge>(
    lang: L,
    judge: J,
    ty: Type,
    start: Term,
    first: J::Score,
    turns: Seq<Turn<L::Semantics>>,
    iterations: usize,
    r: (usize, Term, Analysis<L::Semantics>),
)
    requires
        judge.rating(start) == Some(first),
        run(lang, judge, ty, start, first, turns),
        outcome(judge, start, first, turns, iterations, r),
    ensures
        searched(lang, judge, ty, start, iterations, r),
{
    let f = judge.rating(start).unwrap();
    assert(run(lang, judge, ty, start, f, turns) && outcome(judge, start, f, turns, iterations, r));
}

/// The judge's preference is transitive.
pub open spec fn transitive<J: Judge>(judge: J) -> bool {
    forall|a: J::Score, b: J::Score, c: J::Score|
        judge.prefers(a, b) && judge.prefers(b, c) ==> judge.prefers(a, c)
}

/// `t` is a solution, or its score is that of `start` or one that the judge
/// prefers to it.
pub open spec fn no_worse<J: Judge>(judge: J, t: Term, start: Term) -> bool {
    match judge.rating(t) {
        None => true,
        Some(score) => judge.rating(start) matches Some(first) && (score == first
            || judge.prefers(score, first)),
    }
}

/// Where the judge's preference is transitive, the best term of a chain is
/// rated with the best score, which is the score of the start or one that
/// the judge prefers to it: the best term is never worse than the start.
pub proof fn lemma_best_no_worse<J: Judge, S>(
    judge: J,
    start: Term,
    first: J::Score,
    turns: Seq<Turn<S>>,
)
    requires
        transitive(judge),
        judge.rating(start) == Some(first),
    ensures
        judge.rating(chain_after(judge, start, first, turns).best_candidate) == Some(
            chain_after(judge, start, first, turns).best_score,
        ),
        no_worse(judge, chain_after(judge, start, first, turns).best_candidate, start),
    decreases turns.len(),
{
    if turns.len() > 0 {
        lemma_best_no_worse(judge, start, first, turns.drop_last());
    }
}

/// A run goes on by a turn that the search can take after it, where no turn
/// of the run ends the search.
pub proof fn lemma_run_on<L: Language, J: Judge>(
    lang: L,
    judge: J,
    ty: Type,
    start: Term,
    first: J::Score,
    turns: Seq<Turn<L::Semantics>>,
    turn: Turn<L::Semantics>,
)
    requires
        run(lang, judge, ty, start, first, turns),
        forall|k: int| 0 <= k < turns.len() ==> !ends(judge, #[trigger] turns[k]),
        exists|draw: usize|
            draw < 100 && mutation(
                lang,
                chain_after(judge, start, first, turns).candidate,
                ty,
                #[trigger] MutationTy::of_draw(draw),
                turn.proposal,
            ),
    ensures
        run(lang, judge, ty, start, first, turns.push(turn)),
        chain_after(judge, start, first, turns.push(turn)) == turned(
            judge,
            chain_after(judge, start, first, turns),
            turn,
        ),
{
    let more = turns.push(turn);
    assert(more.drop_last() =~= turns);
    assert forall|k: int| 0 <= k < more.len() implies #[trigger] turn_ok(
        lang,
        judge,
        ty,
        start,
        first,
        more,
        k,
    ) && (k + 1 < more.len() ==> !ends(judge, more[k])) by {
        if k < turns.len() {
            assert(more.take(k) =~= turns.take(k));
            assert(more[k] == turns[k]);
            assert(turn_ok(lang, judge, ty, start, first, turns, k));
        } else {
            assert(more.take(k) =~= turns);
        }
    }
}

/// Metropolis-Hastings search from `start`, a term of type `ty`, for at most
/// `iterations` proposals.
///
/// Where `judge` finds `start` a solution, the search ends at once. Else
/// each iteration makes a proposal ([`mutate`]); where none is made, the
/// iteration is spent. `judge` rates the proposal. Where it is a solution,
/// the search ends with it. Else the proposal becomes the best so far where
/// `judge` prefers its score to the best score, which is that of `start` at
/// first, and the term that the chain stands at where `judge` accepts it.
///
/// Returns the number of iterations that were spent, and the solution with
/// its analysis or, where none was found, the best term so far with its
/// analysis; that is `start`, without analysis, as long as no proposal
/// improved on it. Every term that the chain stands at or returns is
/// `start` or beta-normal and of type `ty`. The search ends before its
/// budget is spent only with a solution.
pub fn metropolis<L: Language, J: Judge>(
    lang: &L,
    start: &Term,
    ty: &Type,
    judge: &mut J,
    iterations: usize,
    options: Options,
) -> (r: (usize, Term, Analysis<L::Semantics>))
    requires
        start.size() <= usize::MAX,
        annotations(prim_decls(lang.context_spec()), Seq::empty(), *start, Some(*ty)) is Some,
    ensures
        searched(*lang, *old(judge), *ty, *start, iterations, r),
        r.0 <= iterations,
        r.0 < iterations ==> old(judge).rating(r.1) is None,
        old(judge).rating(*start) is None ==> r.0 == 0 && r.1 == *start && r.2
            == Analysis::<L::Semantics>::Unique,
        iterations == 0 ==> r.0 == 0 && r.1 == *start && r.2 == Analysis::<L::Semantics>::Unique,
        transitive(*old(judge)) ==> no_worse(*old(judge), r.1, *start),
        chain_term(*lang, *ty, *start, r.1),
        same_judgement(*final(judge), *old(judge)),
{
    let ghost judge0 = *judge;
    let first = match judge.score(start) {
        Some(score) => score,
        None => {
            return (0, start.deep_clone(), Analysis::Unique);
        },
    };
    let mut chain: Chain<L::Semantics, J::Score> = Chain::begin(start, first);
    let mut cache: SizeCache<L> = SizeCache::new();
    let ghost mut turns: Seq<Turn<L::Semantics>> = Seq::empty();
    let mut i: usize = 0;
    while i < iterations
        invariant
            i <= iterations,
            cache.wf(*lang),
            judge0 == *old(judge),
            judge0.rating(*start) == Some(first),
            same_judgement(*judge, judge0),
            start.size() <= usize::MAX,
            annotations(prim_decls(lang.context_spec()), Seq::empty(), *start, Some(*ty)) is Some,
            chain_term(*lang, *ty, *start, chain.candidate),
            chain_term(*lang, *ty, *start, chain.best_candidate),
            turns.len() == i,
            run(*lang, judge0, *ty, *start, first, turns),
            forall|k: int| 0 <= k < turns.len() ==> !ends(judge0, #[trigger] turns[k]),
            chain == chain_after(judge0, *start, first, turns),
        decreases iterations - i,
    {
        i += 1;
        if options.reports(i) {
            judge.progress(i, iterations, &chain.candidate);
        }
        proof {
            if chain.candidate != *start {
                lemma_check_annotates(
                    prim_decls(lang.context_spec()),
                    Seq::empty(),
                    chain.candidate,
                    *ty,
                );
            }
        }
        let made = mutate(lang, &chain.candidate, ty, &mut cache, judge);
        let ghost before = turns;
        let ghost proposed = made;
        let proposal = match made {
            Some(p) => p,
            None => {
                proof {
                    turns = before.push(Turn { proposal: None, accepted: false });
                    lemma_run_on(*lang, judge0, *ty, *start, first, before, turns.last());
                }
                continue;
            },
        };
        let score = match judge.score(&proposal.term) {
            Some(score) => score,
            None => {
                proof {
                    turns = before.push(Turn { proposal: proposed, accepted: false });
                    lemma_run_on(*lang, judge0, *ty, *start, first, before, turns.last());
                    assert(proposed == Some(proposal));
                    assert(ends(judge0, turns.last()));
                    assert(outcome(
                        judge0,
                        *start,
                        first,
                        turns,
                        iterations,
                        (i, proposal.term, proposal.analysis),
                    ));
                    lemma_searched(
                        *lang,
                        judge0,
                        *ty,
                        *start,
                        first,
                        turns,
                        iterations,
                        (i, proposal.term, proposal.analysis),
                    );
                }
                return (i, proposal.term, proposal.analysis);
            },
        };
        let improved = judge.improves(chain.best_score, score);
        let accepted = judge.accepts(chain.score, score, proposal.ratio);
        proof {
            turns = before.push(Turn { proposal: proposed, accepted });
            lemma_run_on(*lang, judge0, *ty, *start, first, before, turns.last());
        }
        chain.advance(lang, proposal, score, improved, accepted);
    }
    proof {
        if transitive(judge0) {
            lemma_best_no_worse(judge0, *start, first, turns);
        }
    }
    let (term, analysis) = chain.into_best();
    (i, term, analysis)
}

} // verus!
