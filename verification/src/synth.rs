//! Synthesis from examples: the scorers of the two drivers, and the drivers
//! themselves, on top of the Metropolis-Hastings search.

use crate::annotate::annotations;
use crate::context::{prim_decls, Context, Reduction};
use crate::eval::{eval_iter, Prims};
use crate::language::{Analysis, Language};
use crate::metro::{chain_term, metropolis, searched, GRatio, Judge, Options};
use crate::generator::search;
use crate::search::{all_terms, Env, Item};
use crate::search_laws::{lemma_yields_size, lemma_yields_typed, scope_ok};
use crate::term::{Term, Value};
use crate::types::Type;
use vstd::prelude::*;

verus! {

/// An example: an input and the output that is wanted for it.
pub type Example = (Value, Value);

/// What a driver leaves to its caller: how a term that gets some examples
/// right is scored, and the decisions and draws that take real numbers.
///
/// The score is a function of the term and of the number of examples that
/// it gets right, and so is the preference of one score to another. Neither
/// changes while a search runs. Nothing is known of which proposals are
/// accepted, nor of the sizes that are drawn.
///
/// The scores are real numbers wherever a weigher is used, so weighers are
/// written in unverified code: that `weigh` and `improves` are functions of
/// their arguments is taken on trust. The bodies of `weight` and `prefers`
/// given here only stand in for what such a weigher cannot state.
pub trait Weigher {
    /// A score; the greater, the better.
    type Score: Copy;

    /// The score of `term`, which gets `num_correct` examples right, and not
    /// all of them.
    open spec fn weight(&self, num_correct: nat, term: Term) -> Self::Score {
        arbitrary()
    }

    /// `score` is greater than `best`.
    open spec fn prefers(&self, score: Self::Score, best: Self::Score) -> bool {
        false
    }

    /// The score of `term`, which gets `num_correct` examples right, and not
    /// all of them.
    fn weigh(&mut self, num_correct: usize, term: &Term) -> (r: Self::Score)
        ensures
            r == old(self).weight(num_correct as nat, *term),
            forall|n: nat, t: Term| final(self).weight(n, t) == old(self).weight(n, t),
            forall|a: Self::Score, b: Self::Score|
                final(self).prefers(a, b) == old(self).prefers(a, b),
    ;

    /// Whether `score` is greater than `best`, the best score so far.
    fn improves(&mut self, best: Self::Score, score: Self::Score) -> (r: bool)
        ensures
            r == old(self).prefers(score, best),
            forall|n: nat, t: Term| final(self).weight(n, t) == old(self).weight(n, t),
            forall|a: Self::Score, b: Self::Score|
                final(self).prefers(a, b) == old(self).prefers(a, b),
    ;

    /// Whether the chain moves on to a proposal of score `proposal`, from a
    /// term of score `current`.
    fn accepts(&mut self, current: Self::Score, proposal: Self::Score, ratio: GRatio) -> (r: bool)
        ensures
            forall|n: nat, t: Term| final(self).weight(n, t) == old(self).weight(n, t),
            forall|a: Self::Score, b: Self::Score|
                final(self).prefers(a, b) == old(self).prefers(a, b),
    ;

    /// The size of the term that takes the place of one of `replaced_size`
    /// nodes in a large mutation, where at most `large_size` are replaced.
    fn large_size(&mut self, replaced_size: usize, large_size: usize) -> (r: usize)
        ensures
            forall|n: nat, t: Term| final(self).weight(n, t) == old(self).weight(n, t),
            forall|a: Self::Score, b: Self::Score|
                final(self).prefers(a, b) == old(self).prefers(a, b),
    ;

    /// Takes note that iteration `iteration` of `iterations` begins, at the
    /// term `candidate`.
    fn progress(&mut self, iteration: usize, iterations: usize, candidate: &Term)
        ensures
            forall|n: nat, t: Term| final(self).weight(n, t) == old(self).weight(n, t),
            forall|a: Self::Score, b: Self::Score|
                final(self).prefers(a, b) == old(self).prefers(a, b),
    ;
}

/// What a driver found.
pub struct MetropolisOutput<S> {
    /// The solution or, where none was found, the best term.
    pub term: Term,
    /// How many iterations were spent.
    pub iterations: usize,
    /// How many examples `term` gets right.
    pub num_correct: usize,
    /// Whether `term` gets every example right.
    pub solved: bool,
    /// What the language makes of `term`.
    pub analysis: Analysis<S>,
}

/// `program` evaluates to the value `expected` within `limit` steps.
pub open spec fn yields<R: Reduction>(
    prims: Prims<R>,
    program: Term,
    expected: Value,
    limit: u32,
) -> bool {
    eval_iter(prims, program, limit as nat) == Term::Val(expected)
}

/// How many of `examples` the function `term` maps to the wanted output:
/// `term` applied to the input evaluates to it within `limit` steps.
pub open spec fn map_correct<R: Reduction>(
    prims: Prims<R>,
    term: Term,
    examples: Seq<Example>,
    limit: u32,
) -> nat
    decreases examples.len(),
{
    if examples.len() == 0 {
        0
    } else {
        map_correct(prims, term, examples.drop_last(), limit) + if yields(
            prims,
            Term::App(Box::new(term), Box::new(Term::Val(examples.last().0))),
            examples.last().1,
            limit,
        ) {
            1nat
        } else {
            0nat
        }
    }
}

/// The value that comes before the `i`-th example: the wanted output of the
/// example before it, or `seed` for the first.
pub open spec fn previous(seed: Value, examples: Seq<Example>, i: int) -> Value {
    if i == 0 {
        seed
    } else {
        examples[i - 1].1
    }
}

/// How many of `examples` the step function `term` gets right: `term`
/// applied to the value that comes before the example, which is the wanted
/// one and not the one `term` gave, and to the input evaluates to the
/// wanted output within `limit` steps.
pub open spec fn step_correct<R: Reduction>(
    prims: Prims<R>,
    term: Term,
    seed: Value,
    examples: Seq<Example>,
    limit: u32,
) -> nat
    decreases examples.len(),
{
    if examples.len() == 0 {
        0
    } else {
        step_correct(prims, term, seed, examples.drop_last(), limit) + if yields(
            prims,
            Term::App(
                Box::new(
                    Term::App(
                        Box::new(term),
                        Box::new(Term::Val(previous(seed, examples, examples.len() - 1))),
                    ),
                ),
                Box::new(Term::Val(examples.last().0)),
            ),
            examples.last().1,
            limit,
        ) {
            1nat
        } else {
            0nat
        }
    }
}

/// Whether `program` evaluates to the value `expected` within `limit` steps.
fn check_example<R: Reduction>(
    ctxt: &Context<R>,
    program: Term,
    expected: &Value,
    limit: u32,
) -> (r: bool)
    ensures
        r == yields(ctxt@, program, *expected, limit),
{
    let mut program = program;
    program.exec_bounded(ctxt, limit);
    match program.leaf_val() {
        Some(v) => v == *expected,
        None => false,
    }
}

/// How many of `examples` the function `term` maps to the wanted output:
/// see [`map_correct`].
pub fn count_map_correct<R: Reduction>(
    ctxt: &Context<R>,
    term: &Term,
    examples: &Vec<Example>,
    limit: u32,
) -> (n: usize)
    ensures
        n == map_correct(ctxt@, *term, examples@, limit),
        n <= examples@.len(),
{
    let mut n: usize = 0;
    let mut i: usize = 0;
    while i < examples.len()
        invariant
            i <= examples.len(),
            n <= i,
            n == map_correct(ctxt@, *term, examples@.take(i as int), limit),
        decreases examples.len() - i,
    {
        proof {
            assert(examples@.take(i as int + 1).drop_last() =~= examples@.take(i as int));
            assert(examples@.take(i as int + 1).last() == examples@[i as int]);
        }
        let program = Term::app(term.deep_clone(), Term::val(examples[i].0));
        if check_example(ctxt, program, &examples[i].1, limit) {
            n += 1;
        }
        i += 1;
    }
    proof {
        assert(examples@.take(examples.len() as int) =~= examples@);
    }
    n
}

/// How many of `examples` the step function `term` gets right: see
/// [`step_correct`].
pub fn count_step_correct<R: Reduction>(
    ctxt: &Context<R>,
    term: &Term,
    seed: &Value,
    examples: &Vec<Example>,
    limit: u32,
) -> (n: usize)
    ensures
        n == step_correct(ctxt@, *term, *seed, examples@, limit),
        n <= examples@.len(),
{
    let mut n: usize = 0;
    let mut yielded: Value = *seed;
    let mut i: usize = 0;
    while i < examples.len()
        invariant
            i <= examples.len(),
            n <= i,
            yielded == previous(*seed, examples@, i as int),
            n == step_correct(ctxt@, *term, *seed, examples@.take(i as int), limit),
        decreases examples.len() - i,
    {
        proof {
            let front = examples@.take(i as int + 1);
            assert(front.drop_last() =~= examples@.take(i as int));
            assert(front.last() == examples@[i as int]);
            assert(previous(*seed, front, front.len() - 1) == previous(
                *seed,
                examples@,
                i as int,
            ));
        }
        let program = Term::app(
            Term::app(term.deep_clone(), Term::val(yielded)),
            Term::val(examples[i].0),
        );
        if check_example(ctxt, program, &examples[i].1, limit) {
            n += 1;
        }
        yielded = examples[i].1;
        i += 1;
    }
    proof {
        assert(examples@.take(examples.len() as int) =~= examples@);
    }
    n
}

/// The judge of [`simple_map`]: a term that gets every example right is a
/// solution; every other term is scored by the weigher.
pub struct MapJudge<'a, R, W> {
    ctxt: &'a Context<R>,
    examples: &'a Vec<Example>,
    limit: u32,
    weigher: W,
}

impl<'a, R: Reduction, W: Weigher> MapJudge<'a, R, W> {
    /// The judge goes by these primitives, examples and limit, and by this
    /// weigher.
    pub closed spec fn judges_by(
        self,
        prims: Prims<R>,
        examples: Seq<Example>,
        limit: u32,
        weigher: W,
    ) -> bool {
        &&& self.ctxt@ == prims
        &&& self.examples@ == examples
        &&& self.limit == limit
        &&& self.weigher == weigher
    }

    /// `term` gets every example right.
    pub closed spec fn gets_all(self, term: Term) -> bool {
        map_correct(self.ctxt@, term, self.examples@, self.limit) == self.examples@.len()
    }

    /// No score where `term` gets every example right; else the weight of
    /// `term` with the number of examples that it gets right.
    pub closed spec fn rates(self, term: Term) -> Option<W::Score> {
        if self.gets_all(term) {
            None
        } else {
            Some(
                self.weigher.weight(
                    map_correct(self.ctxt@, term, self.examples@, self.limit),
                    term,
                ),
            )
        }
    }

    /// The weigher prefers `score` to `best`.
    pub closed spec fn ranks(self, score: W::Score, best: W::Score) -> bool {
        self.weigher.prefers(score, best)
    }

    /// What the judge makes of a term, by what it goes by.
    pub proof fn lemma_judgement(
        self,
        prims: Prims<R>,
        examples: Seq<Example>,
        limit: u32,
        weigher: W,
        term: Term,
    )
        requires
            self.judges_by(prims, examples, limit, weigher),
        ensures
            self.rates(term) == (if map_correct(prims, term, examples, limit) == examples.len() {
                None
            } else {
                Some(weigher.weight(map_correct(prims, term, examples, limit), term))
            }),
            forall|a: W::Score, b: W::Score| self.ranks(a, b) == weigher.prefers(a, b),
    {
    }
}

impl<'a, R: Reduction, W: Weigher> Judge for MapJudge<'a, R, W> {
    type Score = W::Score;

    open spec fn rating(&self, term: Term) -> Option<W::Score> {
        self.rates(term)
    }

    open spec fn prefers(&self, score: W::Score, best: W::Score) -> bool {
        self.ranks(score, best)
    }

    fn score(&mut self, term: &Term) -> (r: Option<W::Score>) {
        let n = count_map_correct(self.ctxt, term, self.examples, self.limit);
        if n == self.examples.len() {
            None
        } else {
            Some(self.weigher.weigh(n, term))
        }
    }

    fn improves(&mut self, best: W::Score, score: W::Score) -> (r: bool) {
        self.weigher.improves(best, score)
    }

    fn accepts(&mut self, current: W::Score, proposal: W::Score, ratio: GRatio) -> (r: bool) {
        self.weigher.accepts(current, proposal, ratio)
    }

    fn large_size(&mut self, replaced_size: usize, large_size: usize) -> (r: usize) {
        self.weigher.large_size(replaced_size, large_size)
    }

    fn progress(&mut self, iteration: usize, iterations: usize, candidate: &Term) {
        self.weigher.progress(iteration, iterations, candidate)
    }
}

/// The judge of [`iterative`]: a step function that gets every example
/// right is a solution; every other term is scored by the weigher.
pub struct StepJudge<'a, R, W> {
    ctxt: &'a Context<R>,
    seed: Value,
    examples: &'a Vec<Example>,
    limit: u32,
    weigher: W,
}

impl<'a, R: Reduction, W: Weigher> StepJudge<'a, R, W> {
    /// The judge goes by these primitives, seed, examples and limit, and by
    /// this weigher.
    pub closed spec fn judges_by(
        self,
        prims: Prims<R>,
        seed: Value,
        examples: Seq<Example>,
        limit: u32,
        weigher: W,
    ) -> bool {
        &&& self.ctxt@ == prims
        &&& self.seed == seed
        &&& self.examples@ == examples
        &&& self.limit == limit
        &&& self.weigher == weigher
    }

    /// `term` gets every example right.
    pub closed spec fn gets_all(self, term: Term) -> bool {
        step_correct(self.ctxt@, term, self.seed, self.examples@, self.limit)
            == self.examples@.len()
    }

    /// No score where `term` gets every example right; else the weight of
    /// `term` with the number of examples that it gets right.
    pub closed spec fn rates(self, term: Term) -> Option<W::Score> {
        if self.gets_all(term) {
            None
        } else {
            Some(
                self.weigher.weight(
                    step_correct(self.ctxt@, term, self.seed, self.examples@, self.limit),
                    term,
                ),
            )
        }
    }

    /// The weigher prefers `score` to `best`.
    pub closed spec fn ranks(self, score: W::Score, best: W::Score) -> bool {
        self.weigher.prefers(score, best)
    }

    /// What the judge makes of a term, by what it goes by.
    pub proof fn lemma_judgement(
        self,
        prims: Prims<R>,
        seed: Value,
        examples: Seq<Example>,
        limit: u32,
        weigher: W,
        term: Term,
    )
        requires
            self.judges_by(prims, seed, examples, limit, weigher),
        ensures
            self.rates(term) == (if step_correct(prims, term, seed, examples, limit)
                == examples.len() {
                None
            } else {
                Some(weigher.weight(step_correct(prims, term, seed, examples, limit), term))
            }),
            forall|a: W::Score, b: W::Score| self.ranks(a, b) == weigher.prefers(a, b),
    {
    }
}

impl<'a, R: Reduction, W: Weigher> Judge for StepJudge<'a, R, W> {
    type Score = W::Score;

    open spec fn rating(&self, term: Term) -> Option<W::Score> {
        self.rates(term)
    }

    open spec fn prefers(&self, score: W::Score, best: W::Score) -> bool {
        self.ranks(score, best)
    }

    fn score(&mut self, term: &Term) -> (r: Option<W::Score>) {
        let n = count_step_correct(self.ctxt, term, &self.seed, self.examples, self.limit);
        if n == self.examples.len() {
            None
        } else {
            Some(self.weigher.weigh(n, term))
        }
    }

    fn improves(&mut self, best: W::Score, score: W::Score) -> (r: bool) {
        self.weigher.improves(best, score)
    }

    fn accepts(&mut self, current: W::Score, proposal: W::Score, ratio: GRatio) -> (r: bool) {
        self.weigher.accepts(current, proposal, ratio)
    }

    fn large_size(&mut self, replaced_size: usize, large_size: usize) -> (r: usize) {
        self.weigher.large_size(replaced_size, large_size)
    }

    fn progress(&mut self, iteration: usize, iterations: usize, candidate: &Term) {
        self.weigher.progress(iteration, iterations, candidate)
    }
}

/// Searches for a function of type `ty` that maps the input of each example
/// to its output, from `start`, for at most `iterations` proposals. A term
/// is evaluated on an example for at most `limit` steps.
///
/// Returns the result of the search ([`searched`]) that a [`MapJudge`]
/// judges: the term that it ends with, solution or best term, with its
/// analysis and with the number of examples that it gets right. Where
/// `start` gets every example right, or the budget is zero, that is `start`,
/// and no iteration is spent.
pub fn simple_map<L: Language, W: Weigher>(
    lang: &L,
    examples: &Vec<Example>,
    start: Term,
    ty: &Type,
    iterations: usize,
    limit: u32,
    options: Options,
    weigher: W,
) -> (out: MetropolisOutput<L::Semantics>)
    requires
        start.size() <= usize::MAX,
        annotations(prim_decls(lang.context_spec()), Seq::empty(), start, Some(*ty)) is Some,
    ensures
        out.iterations <= iterations,
        out.iterations < iterations ==> out.solved,
        chain_term(*lang, *ty, start, out.term),
        out.num_correct == map_correct(lang.context_spec(), out.term, examples@, limit),
        out.solved == (out.num_correct == examples@.len()),
        exists|judge: MapJudge<L::Prim, W>| #[trigger]
            judge.judges_by(lang.context_spec(), examples@, limit, weigher) && searched(
                *lang,
                judge,
                *ty,
                start,
                iterations,
                (out.iterations, out.term, out.analysis),
            ),
        map_correct(lang.context_spec(), start, examples@, limit) == examples@.len()
            || iterations == 0 ==> out.iterations == 0 && out.term == start && out.analysis
            == Analysis::<L::Semantics>::Unique,
{
    let ctxt = lang.context();
    let mut judge = MapJudge { ctxt: &ctxt, examples, limit, weigher };
    let ghost judge0 = judge;
    let (iterations, term, analysis) =
        metropolis(lang, &start, ty, &mut judge, iterations, options);
    proof {
        assert(judge0.judges_by(lang.context_spec(), examples@, limit, weigher));
    }
    let num_correct = count_map_correct(&ctxt, &term, examples, limit);
    MetropolisOutput {
        term,
        iterations,
        num_correct,
        solved: num_correct == examples.len(),
        analysis,
    }
}

/// The scope of a closed term of `lang`.
pub open spec fn closed_env<L: Language>(lang: L) -> Env<L> {
    Env { lang, vars: Seq::empty() }
}

/// The enumeration yields a closed term of type `ty` of some size, in a
/// language whose primitives have names of their own.
pub open spec fn inhabited<L: Language>(lang: L, ty: Type) -> bool {
    exists|n: nat| #[trigger] first_at(lang, ty, n)
}

/// The smallest closed terms of type `ty` that the enumeration yields have
/// `n` nodes, and terms of that size can be built in the language.
pub open spec fn first_at<L: Language>(lang: L, ty: Type, n: nat) -> bool {
    &&& 1 <= n
    &&& scope_ok(closed_env(lang), n)
    &&& all_terms(closed_env(lang), ty, n).len() > 0
}

/// `item` is the first closed term of type `ty` that the enumeration
/// yields, the sizes taken in ascending order.
pub open spec fn is_first<L: Language>(lang: L, ty: Type, item: Item<L::Semantics>) -> bool {
    exists|n: nat|
        #[trigger] first_at(lang, ty, n) && item == all_terms(closed_env(lang), ty, n)[0]
            && forall|m: nat|
            1 <= m < n ==> (#[trigger] all_terms(closed_env(lang), ty, m)).len() == 0
}

/// The term that a search from `start` starts from: the term given or,
/// where none is given, the first closed term of type `ty` that the
/// enumeration yields.
pub open spec fn starts_from<L: Language>(lang: L, ty: Type, start: Option<Term>, t: Term) -> bool {
    match start {
        Some(given) => t == given,
        None => exists|a: Analysis<L::Semantics>| #[trigger] is_first(lang, ty, (t, a)),
    }
}

/// The first closed term of type `ty` that the enumeration yields, the
/// sizes taken in ascending order.
pub fn first_term<L: Language>(lang: &L, ty: &Type) -> (r: Item<L::Semantics>)
    requires
        inhabited(*lang, *ty),
    ensures
        is_first(*lang, *ty, r),
{
    let ghost witness = choose|n: nat| #[trigger] first_at(*lang, *ty, n);
    let mut size: usize = 1;
    loop
        invariant
            1 <= size <= witness,
            first_at(*lang, *ty, witness),
            forall|m: nat|
                1 <= m < size ==> (#[trigger] all_terms(closed_env(*lang), *ty, m)).len() == 0,
        decreases witness - size,
    {
        let mut e = search(lang, Vec::new(), ty, size);
        match e.next() {
            Some(item) => {
                proof {
                    assert(first_at(*lang, *ty, size as nat));
                }
                return item;
            },
            None => {
                size += 1;
            },
        }
    }
}

/// Searches for a step function of type `ty` that maps the value before an
/// example and its input to its output, the first value being `seed`, for
/// at most `iterations` proposals. The search starts from `start` or, where
/// none is given, from the first term of type `ty` that the enumeration
/// yields. A term is evaluated on an example for at most `limit` steps.
///
/// Returns the result of the search ([`searched`]) that a [`StepJudge`]
/// judges: the term that it ends with, solution or best term, with its
/// analysis and with the number of examples that it gets right. Where the
/// term that the search starts from gets every example right, or the budget
/// is zero, that term is returned, and no iteration is spent.
pub fn iterative<L: Language, W: Weigher>(
    lang: &L,
    seed: Value,
    examples: &Vec<Example>,
    start: Option<Term>,
    ty: &Type,
    iterations: usize,
    limit: u32,
    options: Options,
    weigher: W,
) -> (out: MetropolisOutput<L::Semantics>)
    requires
        match start {
            Some(t) => t.size() <= usize::MAX && annotations(
                prim_decls(lang.context_spec()),
                Seq::empty(),
                t,
                Some(*ty),
            ) is Some,
            None => inhabited(*lang, *ty),
        },
    ensures
        out.iterations <= iterations,
        out.iterations < iterations ==> out.solved,
        out.num_correct == step_correct(lang.context_spec(), out.term, seed, examples@, limit),
        out.solved == (out.num_correct == examples@.len()),
        exists|from: Term, judge: StepJudge<L::Prim, W>| #[trigger]
            starts_from(*lang, *ty, start, from) && #[trigger] judge.judges_by(
                lang.context_spec(),
                seed,
                examples@,
                limit,
                weigher,
            ) && chain_term(*lang, *ty, from, out.term) && searched(
                *lang,
                judge,
                *ty,
                from,
                iterations,
                (out.iterations, out.term, out.analysis),
            ) && (step_correct(lang.context_spec(), from, seed, examples@, limit) == examples@.len()
                || iterations == 0 ==> out.iterations == 0 && out.term == from && out.analysis
                == Analysis::<L::Semantics>::Unique),
{
    let ghost given = start;
    let start = match start {
        Some(t) => t,
        None => {
            let found = first_term(lang, ty);
            proof {
                assert(is_first(*lang, *ty, (found.0, found.1)));
                let n = choose|n: nat|
                    #[trigger] first_at(*lang, *ty, n) && found == all_terms(
                        closed_env(*lang),
                        *ty,
                        n,
                    )[0];
                lemma_yields_typed(closed_env(*lang), *ty, n, 0);
                lemma_yields_size(closed_env(*lang), *ty, n, 0);
            }
            found.0
        },
    };
    let ctxt = lang.context();
    let mut judge = StepJudge { ctxt: &ctxt, seed, examples, limit, weigher };
    let ghost judge0 = judge;
    let (iterations, term, analysis) =
        metropolis(lang, &start, ty, &mut judge, iterations, options);
    proof {
        assert(starts_from(*lang, *ty, given, start));
        assert(judge0.judges_by(lang.context_spec(), seed, examples@, limit, weigher));
    }
    let num_correct = count_step_correct(&ctxt, &term, &seed, examples, limit);
    MetropolisOutput {
        term,
        iterations,
        num_correct,
        solved: num_correct == examples.len(),
        analysis,
    }
}

} // verus!
