//! Evaluation of terms against the primitives of a context: beta reduction
//! together with the reduction rules of the primitives.

use crate::assoc::find;
use crate::context::{BuiltIn, Context, Reduction};
use crate::term::Term;
use crate::types::Identifier;
use vstd::prelude::*;

verus! {

impl Term {
    /// The arguments that the head of the term is applied to, first one first.
    pub open spec fn spine_args(self) -> Seq<Term>
        decreases self,
    {
        match self {
            Term::App(f, a) => f.spine_args().push(*a),
            _ => Seq::empty(),
        }
    }

    /// The head of the term: what is left of it once all arguments are taken
    /// away.
    pub open spec fn spine_head(self) -> Term
        decreases self,
    {
        match self {
            Term::App(f, _) => f.spine_head(),
            _ => self,
        }
    }

    /// The head of the term.
    pub fn head(&self) -> (h: &Term)
        ensures
            *h == self.spine_head(),
        decreases *self,
    {
        match self {
            Term::App(f, _) => f.head(),
            _ => self,
        }
    }

    /// Appends copies of the arguments of the head to `out`.
    fn push_args(&self, out: &mut Vec<Term>)
        ensures
            final(out)@ == old(out)@ + self.spine_args(),
        decreases *self,
    {
        match self {
            Term::App(f, a) => {
                f.push_args(out);
                out.push(a.deep_clone());
                proof {
                    assert(old(out)@ + f.spine_args().push(**a) =~= (old(out)@
                        + f.spine_args()).push(**a));
                }
            },
            _ => {
                proof {
                    assert(old(out)@ + Seq::<Term>::empty() =~= old(out)@);
                }
            },
        }
    }
}

/// The primitives of a context, by name, in order.
pub type Prims<R> = Seq<(Identifier, BuiltIn<R>)>;

/// What the rule of the primitive at the head of `t` rewrites `t` to,
/// where the head is a primitive whose name no binder in `hidden` hides
/// and `t` gives it exactly as many arguments as its rule takes.
pub open spec fn delta<R: Reduction>(prims: Prims<R>, hidden: Seq<Identifier>, t: Term) -> Option<
    Term,
> {
    match t.spine_head() {
        Term::Var(x) => if hidden.contains(x) {
            None
        } else {
            match find(prims, x) {
                Some(b) => if b.n_args == t.spine_args().len() {
                    b.func.reduce_spec(t.spine_args())
                } else {
                    None
                },
                None => None,
            }
        },
        _ => None,
    }
}

/// One step of evaluation, leftmost first; `None` where no step applies.
///
/// An abstraction applied to an argument is contracted. Else the function
/// part steps; else the rule of the primitive at the head is tried on the
/// arguments as they stand; else the last argument steps. Below a binder
/// a primitive of the binder's name is hidden.
pub open spec fn eval_step<R: Reduction>(
    prims: Prims<R>,
    hidden: Seq<Identifier>,
    t: Term,
) -> Option<Term>
    decreases t,
{
    match t {
        Term::Val(_) => None,
        Term::Var(_) => delta(prims, hidden, t),
        Term::Lam(x, b) => match eval_step(prims, hidden.push(x), *b) {
            Some(c) => Some(Term::Lam(x, Box::new(c))),
            None => None,
        },
        Term::App(f, a) => if f.is_lam() {
            Some(t.beta_step())
        } else {
            match eval_step(prims, hidden, *f) {
                Some(g) => Some(Term::App(Box::new(g), a)),
                None => match delta(prims, hidden, t) {
                    Some(r) => Some(r),
                    None => match eval_step(prims, hidden, *a) {
                        Some(b) => Some(Term::App(f, Box::new(b))),
                        None => None,
                    },
                },
            }
        },
    }
}

/// The term after `k` steps of evaluation, or fewer where no step is left.
pub open spec fn eval_iter<R: Reduction>(prims: Prims<R>, t: Term, k: nat) -> Term
    decreases k,
{
    if k == 0 {
        t
    } else {
        match eval_step(prims, Seq::empty(), t) {
            Some(u) => eval_iter(prims, u, (k - 1) as nat),
            None => t,
        }
    }
}

/// No step of evaluation applies to `t`.
pub open spec fn is_final<R: Reduction>(prims: Prims<R>, t: Term) -> bool {
    eval_step(prims, Seq::empty(), t) is None
}

/// Evaluation of `t` comes to an end.
pub open spec fn evaluates<R: Reduction>(prims: Prims<R>, t: Term) -> bool {
    exists|k: nat| is_final(prims, eval_iter(prims, t, k))
}

/// What evaluation of `t` ends in, where it ends.
pub open spec fn eval_form<R: Reduction>(prims: Prims<R>, t: Term) -> Term {
    eval_iter(prims, t, choose|k: nat| is_final(prims, eval_iter(prims, t, k)))
}

/// One step of weak head evaluation; `None` where no step applies.
///
/// The head redex is contracted; else the rule of the primitive at the
/// head is tried, on the fewest arguments first. No argument is
/// evaluated, and nothing below a binder.
pub open spec fn solve_step<R: Reduction>(prims: Prims<R>, t: Term) -> Option<Term>
    decreases t,
{
    match t {
        Term::App(f, a) => if f.is_lam() {
            Some(t.head_step())
        } else {
            match solve_step(prims, *f) {
                Some(g) => Some(Term::App(Box::new(g), a)),
                None => delta(prims, Seq::empty(), t),
            }
        },
        Term::Var(_) => delta(prims, Seq::empty(), t),
        _ => None,
    }
}

/// The term after `k` steps of weak head evaluation, or fewer where no
/// step is left.
pub open spec fn solve_iter<R: Reduction>(prims: Prims<R>, t: Term, k: nat) -> Term
    decreases k,
{
    if k == 0 {
        t
    } else {
        match solve_step(prims, t) {
            Some(u) => solve_iter(prims, u, (k - 1) as nat),
            None => t,
        }
    }
}

/// Weak head evaluation of `t` comes to an end.
pub open spec fn solves<R: Reduction>(prims: Prims<R>, t: Term) -> bool {
    exists|k: nat| solve_step(prims, solve_iter(prims, t, k)) is None
}

/// What weak head evaluation of `t` ends in, where it ends.
pub open spec fn solve_form<R: Reduction>(prims: Prims<R>, t: Term) -> Term {
    solve_iter(prims, t, choose|k: nat| solve_step(prims, solve_iter(prims, t, k)) is None)
}

/// Once no step applies, further steps change nothing.
pub proof fn lemma_final_iter<R: Reduction>(prims: Prims<R>, t: Term, k: nat)
    requires
        is_final(prims, t),
    ensures
        eval_iter(prims, t, k) == t,
    decreases k,
{
}

/// Steps of evaluation add up.
pub proof fn lemma_eval_iter_add<R: Reduction>(prims: Prims<R>, t: Term, j: nat, k: nat)
    ensures
        eval_iter(prims, eval_iter(prims, t, j), k) == eval_iter(prims, t, j + k),
    decreases j,
{
    if j > 0 {
        match eval_step(prims, Seq::empty(), t) {
            Some(u) => {
                lemma_eval_iter_add(prims, u, (j - 1) as nat, k);
            },
            None => {
                lemma_final_iter(prims, t, k);
                lemma_final_iter(prims, t, j + k);
            },
        }
    }
}

impl<R: Reduction> Context<R> {
    /// Tries the rule of the primitive at the head of `t`.
    fn try_delta(&self, hidden: &Vec<Identifier>, t: &Term) -> (r: Option<Term>)
        ensures
            r == delta(self@, hidden@, *t),
    {
        let name = match t.head() {
            Term::Var(x) => *x,
            _ => {
                return None;
            },
        };
        let mut i: usize = 0;
        while i < hidden.len()
            invariant
                i <= hidden.len(),
                t.spine_head() == Term::Var(name),
                forall|j: int| 0 <= j < i ==> hidden@[j] != name,
            decreases hidden.len() - i,
        {
            if hidden[i] == name {
                proof {
                    assert(hidden@[i as int] == name);
                }
                return None;
            }
            i += 1;
        }
        match self.get(name) {
            Some(b) => {
                let mut args: Vec<Term> = Vec::new();
                t.push_args(&mut args);
                proof {
                    assert(Seq::<Term>::empty() + t.spine_args() =~= t.spine_args());
                }
                if b.n_args == args.len() {
                    b.func.reduce(&args)
                } else {
                    None
                }
            },
            None => None,
        }
    }
}

impl Term {
    /// One step of evaluation in place. Returns whether a step applied.
    fn eval_once<R: Reduction>(
        &mut self,
        context: &Context<R>,
        hidden: &mut Vec<Identifier>,
    ) -> (stepped: bool)
        ensures
            final(hidden)@ == old(hidden)@,
            match eval_step(context@, old(hidden)@, *old(self)) {
                Some(t) => stepped && *final(self) == t,
                None => !stepped && *final(self) == *old(self),
            },
        decreases *old(self),
    {
        if self.is_redex() {
            self.contract();
            return true;
        }
        match self {
            Term::Val(_) => {
                return false;
            },
            Term::Lam(x, b) => {
                hidden.push(*x);
                let stepped = b.eval_once(context, hidden);
                hidden.pop();
                proof {
                    assert(hidden@ =~= old(hidden)@);
                }
                return stepped;
            },
            Term::App(f, _) => {
                if f.eval_once(context, hidden) {
                    return true;
                }
            },
            Term::Var(_) => {},
        }
        match context.try_delta(hidden, self) {
            Some(r) => {
                *self = r;
                return true;
            },
            None => {},
        }
        match self {
            Term::App(_, a) => a.eval_once(context, hidden),
            _ => false,
        }
    }

    /// One step of weak head evaluation in place. Returns whether a step
    /// applied.
    fn solve_once<R: Reduction>(&mut self, context: &Context<R>) -> (stepped: bool)
        ensures
            match solve_step(context@, *old(self)) {
                Some(t) => stepped && *final(self) == t,
                None => !stepped && *final(self) == *old(self),
            },
        decreases *old(self),
    {
        if self.is_redex() {
            self.contract();
            return true;
        }
        match self {
            Term::App(f, _) => {
                if f.solve_once(context) {
                    return true;
                }
            },
            Term::Var(_) => {},
            _ => {
                return false;
            },
        }
        let hidden: Vec<Identifier> = Vec::new();
        match context.try_delta(&hidden, self) {
            Some(r) => {
                *self = r;
                true
            },
            None => false,
        }
    }

    /// Evaluates the term to the end: beta reduction and the rules of the
    /// primitives, until no step applies.
    pub fn exec<R: Reduction>(&mut self, context: &Context<R>)
        requires
            evaluates(context@, *old(self)),
        ensures
            is_final(context@, *final(self)),
            *final(self) == eval_form(context@, *old(self)),
    {
        let ghost mut fuel: nat = choose|k: nat| is_final(context@, eval_iter(context@, *self, k));
        let mut hidden: Vec<Identifier> = Vec::new();
        loop
            invariant_except_break
                hidden@ == Seq::<Identifier>::empty(),
                eval_iter(context@, *self, fuel) == eval_form(context@, *old(self)),
                is_final(context@, eval_iter(context@, *self, fuel)),
            ensures
                is_final(context@, *self),
                *self == eval_form(context@, *old(self)),
            decreases fuel,
        {
            let ghost before = *self;
            let stepped = self.eval_once(context, &mut hidden);
            if !stepped {
                proof {
                    lemma_final_iter(context@, before, fuel);
                }
                break;
            }
            proof {
                fuel = (fuel - 1) as nat;
            }
        }
    }

    /// Whether no step of evaluation applies to the term.
    pub fn evaluated<R: Reduction>(&self, context: &Context<R>) -> (done: bool)
        ensures
            done == is_final(context@, *self),
    {
        let mut probe = self.deep_clone();
        let mut hidden: Vec<Identifier> = Vec::new();
        !probe.eval_once(context, &mut hidden)
    }

    /// Evaluation for at most `limit` steps. Returns whether no step is
    /// left.
    pub fn exec_bounded<R: Reduction>(&mut self, context: &Context<R>, limit: u32) -> (done: bool)
        ensures
            *final(self) == eval_iter(context@, *old(self), limit as nat),
            done == is_final(context@, *final(self)),
    {
        let mut hidden: Vec<Identifier> = Vec::new();
        let mut i: u32 = 0;
        while i < limit
            invariant
                i <= limit,
                hidden@ == Seq::<Identifier>::empty(),
                *self == eval_iter(context@, *old(self), i as nat),
            decreases limit - i,
        {
            let ghost before = *self;
            let stepped = self.eval_once(context, &mut hidden);
            proof {
                lemma_eval_iter_add(context@, *old(self), i as nat, 1);
                assert(eval_iter(context@, before, 1) == match eval_step(
                    context@,
                    Seq::empty(),
                    before,
                ) {
                    Some(u) => eval_iter(context@, u, 0),
                    None => before,
                });
            }
            if !stepped {
                proof {
                    lemma_eval_iter_add(context@, *old(self), i as nat, (limit - i) as nat);
                    lemma_final_iter(context@, before, (limit - i) as nat);
                }
                return true;
            }
            i += 1;
        }
        self.evaluated(context)
    }

    /// Weak head evaluation to the end: head reduction and the rules of the
    /// primitives at the head, until neither applies.
    pub fn solve<R: Reduction>(&mut self, context: &Context<R>)
        requires
            solves(context@, *old(self)),
        ensures
            solve_step(context@, *final(self)) is None,
            *final(self) == solve_form(context@, *old(self)),
    {
        let ghost mut fuel: nat = choose|k: nat|
            solve_step(context@, solve_iter(context@, *self, k)) is None;
        loop
            invariant_except_break
                solve_iter(context@, *self, fuel) == solve_form(context@, *old(self)),
                solve_step(context@, solve_iter(context@, *self, fuel)) is None,
            ensures
                solve_step(context@, *self) is None,
                *self == solve_form(context@, *old(self)),
            decreases fuel,
        {
            let stepped = self.solve_once(context);
            if !stepped {
                break;
            }
            proof {
                fuel = (fuel - 1) as nat;
            }
        }
    }
}

} // verus!
