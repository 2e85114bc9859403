//! Polynomials in normal form: sums of monomials with integer coefficients
//! that wrap around.

use crate::types::Identifier;
use vstd::prelude::*;
use vstd::wrapping::i32_specs;

verus! {

/// How two things stand in an order.
#[derive(Clone, Copy, Debug, PartialEq, Eq, Structural)]
pub enum Order {
    Less,
    Equal,
    Greater,
}

/// A product of variables: their names in ascending order, each as often as
/// its power tells.
#[derive(Debug)]
pub enum Mono {
    One,
    Times(Identifier, Box<Mono>),
}

/// A sum of monomials with coefficients: ascending by monomial, and no
/// coefficient is zero.
#[derive(Debug)]
pub enum Sum {
    Zero,
    Plus(i32, Mono, Box<Sum>),
}

/// Two integers differ by a multiple of two to the thirty-second power: they
/// stand for the same integer of 32 bits.
pub open spec fn congruent(a: int, b: int) -> bool {
    exists|q: int| a - b == #[trigger] (q * 0x1_0000_0000)
}

/// Congruence is kept by sums and by products.
pub proof fn lemma_congruent(a: int, b: int, c: int, d: int)
    requires
        congruent(a, b),
        congruent(c, d),
    ensures
        congruent(a + c, b + d),
        congruent(a * c, b * d),
        congruent(b, a),
{
    let p = choose|q: int| a - b == #[trigger] (q * 0x1_0000_0000);
    let q = choose|q: int| c - d == #[trigger] (q * 0x1_0000_0000);
    assert(a + c - (b + d) == (p + q) * 0x1_0000_0000);
    assert(b - a == (-p) * 0x1_0000_0000);
    let w = p * c + b * q;
    assert(a * c - b * d == w * 0x1_0000_0000) by (nonlinear_arith)
        requires
            a - b == p * 0x1_0000_0000,
            c - d == q * 0x1_0000_0000,
            w == p * c + b * q,
    ;
}

/// An integer is congruent to itself.
pub proof fn lemma_congruent_refl(a: int)
    ensures
        congruent(a, a),
{
    assert(a - a == 0 * 0x1_0000_0000);
}

/// Congruence goes on from one integer to the next.
pub proof fn lemma_congruent_chain(a: int, b: int, c: int)
    requires
        congruent(a, b),
        congruent(b, c),
    ensures
        congruent(a, c),
{
    let p = choose|q: int| a - b == #[trigger] (q * 0x1_0000_0000);
    let q = choose|q: int| b - c == #[trigger] (q * 0x1_0000_0000);
    assert(a - c == (p + q) * 0x1_0000_0000);
}

/// Arithmetic that wraps around gives what exact arithmetic gives, up to
/// congruence.
pub proof fn lemma_wrapping_congruent(c: i32, d: i32)
    ensures
        congruent(i32_specs::wrapping_add(c, d) as int, c + d),
        congruent(i32_specs::wrapping_mul(c, d) as int, c * d),
{
    let sum = i32_specs::wrapping_add(c, d) as int;
    if c + d > i32::MAX {
        assert(sum - (c + d) == (-1) * 0x1_0000_0000);
    } else if c + d < i32::MIN {
        assert(sum - (c + d) == 1 * 0x1_0000_0000);
    } else {
        assert(sum - (c + d) == 0 * 0x1_0000_0000);
    }
    let v = c * d;
    let product = i32_specs::wrapping_mul(c, d) as int;
    let m = v % 0x1_0000_0000;
    let k = v / 0x1_0000_0000;
    assert(v == k * 0x1_0000_0000 + m);
    if m > i32::MAX {
        assert(product - v == (-k - 1) * 0x1_0000_0000);
    } else {
        assert(product - v == (-k) * 0x1_0000_0000);
    }
}

impl Mono {
    /// The value of the monomial where `at` gives the values of the variables.
    pub open spec fn value(self, at: spec_fn(Identifier) -> int) -> int
        decreases self,
    {
        match self {
            Mono::One => 1,
            Mono::Times(x, r) => at(x) * r.value(at),
        }
    }

    /// The product of two monomials has the product of their values.
    pub proof fn lemma_times_value(self, other: Mono, at: spec_fn(Identifier) -> int)
        ensures
            self.times(other).value(at) == self.value(at) * other.value(at),
        decreases self, other,
    {
        match self {
            Mono::One => {},
            Mono::Times(x, r) => match other {
                Mono::One => {
                    assert(self.value(at) * 1 == self.value(at));
                },
                Mono::Times(y, s) => {
                    if x <= y {
                        r.lemma_times_value(other, at);
                        assert(at(x) * (r.value(at) * other.value(at)) == (at(x) * r.value(at))
                            * other.value(at)) by (nonlinear_arith);
                    } else {
                        self.lemma_times_value(*s, at);
                        assert(at(y) * (self.value(at) * s.value(at)) == self.value(at) * (at(y)
                            * s.value(at))) by (nonlinear_arith);
                    }
                },
            },
        }
    }

    /// The names are in ascending order.
    pub open spec fn sorted(self) -> bool
        decreases self,
    {
        match self {
            Mono::One => true,
            Mono::Times(x, r) => r.sorted() && match *r {
                Mono::One => true,
                Mono::Times(y, _) => x <= y,
            },
        }
    }

    /// Every name is `x` or greater.
    pub open spec fn from(self, x: Identifier) -> bool {
        match self {
            Mono::One => true,
            Mono::Times(y, _) => x <= y,
        }
    }

    /// The product of two monomials: their names merged.
    pub open spec fn times(self, other: Mono) -> Mono
        decreases self, other,
    {
        match self {
            Mono::One => other,
            Mono::Times(x, r) => match other {
                Mono::One => self,
                Mono::Times(y, s) => if x <= y {
                    Mono::Times(x, Box::new(r.times(other)))
                } else {
                    Mono::Times(y, Box::new(self.times(*s)))
                },
            },
        }
    }

    /// The order of two monomials: name by name, and a monomial before those
    /// that go on after it.
    pub open spec fn compare(self, other: Mono) -> Order
        decreases self,
    {
        match self {
            Mono::One => match other {
                Mono::One => Order::Equal,
                Mono::Times(_, _) => Order::Less,
            },
            Mono::Times(x, r) => match other {
                Mono::One => Order::Greater,
                Mono::Times(y, s) => if x < y {
                    Order::Less
                } else if x > y {
                    Order::Greater
                } else {
                    r.compare(*s)
                },
            },
        }
    }

    /// Monomials compare equal exactly where they are the same.
    pub proof fn lemma_compare_equal(self, other: Mono)
        ensures
            self.compare(other) == Order::Equal <==> self == other,
        decreases self,
    {
        match self {
            Mono::One => {},
            Mono::Times(x, r) => match other {
                Mono::One => {},
                Mono::Times(y, s) => {
                    r.lemma_compare_equal(*s);
                },
            },
        }
    }

    /// What is less one way is greater the other way.
    pub proof fn lemma_compare_flip(self, other: Mono)
        ensures
            self.compare(other) == Order::Less <==> other.compare(self) == Order::Greater,
        decreases self,
    {
        match self {
            Mono::One => {},
            Mono::Times(x, r) => match other {
                Mono::One => {},
                Mono::Times(y, s) => {
                    r.lemma_compare_flip(*s);
                },
            },
        }
    }

    /// Less than something less is less.
    pub proof fn lemma_compare_trans(self, mid: Mono, other: Mono)
        requires
            self.compare(mid) == Order::Less,
            mid.compare(other) == Order::Less,
        ensures
            self.compare(other) == Order::Less,
        decreases self,
    {
        match self {
            Mono::One => {},
            Mono::Times(x, r) => match mid {
                Mono::One => {},
                Mono::Times(y, s) => match other {
                    Mono::One => {},
                    Mono::Times(z, t) => {
                        if x == y && y == z {
                            r.lemma_compare_trans(*s, *t);
                        }
                    },
                },
            },
        }
    }

    /// The product of sorted monomials is sorted, and starts no lower than
    /// both.
    pub proof fn lemma_times_sorted(self, other: Mono, x: Identifier)
        requires
            self.sorted(),
            other.sorted(),
            self.from(x),
            other.from(x),
        ensures
            self.times(other).sorted(),
            self.times(other).from(x),
        decreases self, other,
    {
        match self {
            Mono::One => {},
            Mono::Times(a, r) => match other {
                Mono::One => {},
                Mono::Times(b, s) => {
                    if a <= b {
                        r.lemma_times_sorted(other, a);
                    } else {
                        self.lemma_times_sorted(*s, b);
                    }
                },
            },
        }
    }

    /// The monomial of one variable.
    pub fn of(x: Identifier) -> (m: Mono)
        ensures
            m == Mono::Times(x, Box::new(Mono::One)),
    {
        Mono::Times(x, Box::new(Mono::One))
    }

    /// An independent copy.
    pub fn copy(&self) -> (m: Mono)
        ensures
            m == *self,
        decreases *self,
    {
        match self {
            Mono::One => Mono::One,
            Mono::Times(x, r) => Mono::Times(*x, Box::new(r.copy())),
        }
    }

    /// The order of two monomials: see [`Mono::compare`].
    pub fn order(&self, other: &Mono) -> (o: Order)
        ensures
            o == self.compare(*other),
        decreases *self,
    {
        match self {
            Mono::One => match other {
                Mono::One => Order::Equal,
                Mono::Times(_, _) => Order::Less,
            },
            Mono::Times(x, r) => match other {
                Mono::One => Order::Greater,
                Mono::Times(y, s) => if *x < *y {
                    Order::Less
                } else if *x > *y {
                    Order::Greater
                } else {
                    r.order(s)
                },
            },
        }
    }

    /// Whether two monomials are the same.
    pub fn same(&self, other: &Mono) -> (r: bool)
        ensures
            r == (*self == *other),
    {
        proof {
            self.lemma_compare_equal(*other);
        }
        self.order(other) == Order::Equal
    }

    /// The product of two monomials: see [`Mono::times`].
    pub fn product(&self, other: &Mono) -> (m: Mono)
        ensures
            m == self.times(*other),
        decreases *self, *other,
    {
        match self {
            Mono::One => other.copy(),
            Mono::Times(x, r) => match other {
                Mono::One => self.copy(),
                Mono::Times(y, s) => if *x <= *y {
                    Mono::Times(*x, Box::new(r.product(other)))
                } else {
                    Mono::Times(*y, Box::new(self.product(s)))
                },
            },
        }
    }
}

impl Sum {
    /// The value of the polynomial where `at` gives the values of the
    /// variables.
    pub open spec fn value(self, at: spec_fn(Identifier) -> int) -> int
        decreases self,
    {
        match self {
            Sum::Zero => 0,
            Sum::Plus(c, m, r) => c * m.value(at) + r.value(at),
        }
    }

    /// The value of one monomial with its coefficient.
    pub proof fn lemma_single_value(c: i32, m: Mono, at: spec_fn(Identifier) -> int)
        ensures
            Sum::single(c, m).value(at) == c * m.value(at),
    {
        if c != 0 {
            assert(Sum::Zero.value(at) == 0);
        }
    }

    /// The sum of two polynomials has the sum of their values, as an integer
    /// of 32 bits.
    pub proof fn lemma_add_value(self, other: Sum, at: spec_fn(Identifier) -> int)
        ensures
            congruent(self.add(other).value(at), self.value(at) + other.value(at)),
        decreases self, other,
    {
        let whole = self.value(at) + other.value(at);
        lemma_congruent_refl(whole);
        match self {
            Sum::Zero => {},
            Sum::Plus(c, m, r) => match other {
                Sum::Zero => {},
                Sum::Plus(d, n, s) => {
                    m.lemma_compare_equal(n);
                    let mv = m.value(at);
                    let nv = n.value(at);
                    match m.compare(n) {
                        Order::Less => {
                            r.lemma_add_value(other, at);
                            lemma_congruent_refl(c * mv);
                            lemma_congruent(
                                c * mv,
                                c * mv,
                                r.add(other).value(at),
                                r.value(at) + other.value(at),
                            );
                        },
                        Order::Greater => {
                            self.lemma_add_value(*s, at);
                            lemma_congruent_refl(d * nv);
                            lemma_congruent(
                                d * nv,
                                d * nv,
                                self.add(*s).value(at),
                                self.value(at) + s.value(at),
                            );
                        },
                        Order::Equal => {
                            r.lemma_add_value(*s, at);
                            let e = i32_specs::wrapping_add(c, d);
                            lemma_wrapping_congruent(c, d);
                            lemma_congruent_refl(mv);
                            lemma_congruent(e as int, c + d, mv, mv);
                            lemma_congruent(
                                e * mv,
                                (c + d) * mv,
                                r.add(*s).value(at),
                                r.value(at) + s.value(at),
                            );
                            assert((c + d) * mv == c * mv + d * mv) by (nonlinear_arith);
                            if e == 0 {
                                assert(e * mv == 0);
                            }
                        },
                    }
                },
            },
        }
    }

    /// A polynomial times a monomial with a coefficient has the product of
    /// the values, as an integer of 32 bits.
    pub proof fn lemma_scale_value(self, c: i32, m: Mono, at: spec_fn(Identifier) -> int)
        ensures
            congruent(self.scale(c, m).value(at), c * m.value(at) * self.value(at)),
        decreases self,
    {
        let mv = m.value(at);
        match self {
            Sum::Zero => {
                assert(c * mv * 0 == 0);
                lemma_congruent_refl(0);
            },
            Sum::Plus(d, n, r) => {
                let nv = n.value(at);
                let e = i32_specs::wrapping_mul(c, d);
                let first = Sum::single(e, m.times(n));
                r.lemma_scale_value(c, m, at);
                Sum::lemma_single_value(e, m.times(n), at);
                m.lemma_times_value(n, at);
                first.lemma_add_value(r.scale(c, m), at);
                lemma_wrapping_congruent(c, d);
                lemma_congruent_refl(mv * nv);
                lemma_congruent(e as int, c * d, mv * nv, mv * nv);
                lemma_congruent(
                    e * (mv * nv),
                    (c * d) * (mv * nv),
                    r.scale(c, m).value(at),
                    c * mv * r.value(at),
                );
                lemma_congruent_chain(
                    self.scale(c, m).value(at),
                    first.value(at) + r.scale(c, m).value(at),
                    (c * d) * (mv * nv) + c * mv * r.value(at),
                );
                assert((c * d) * (mv * nv) + c * mv * r.value(at) == c * mv * (d * nv + r.value(
                    at,
                ))) by (nonlinear_arith);
            },
        }
    }

    /// The product of two polynomials has the product of their values, as an
    /// integer of 32 bits.
    pub proof fn lemma_mul_value(self, other: Sum, at: spec_fn(Identifier) -> int)
        ensures
            congruent(self.mul(other).value(at), self.value(at) * other.value(at)),
        decreases self,
    {
        match self {
            Sum::Zero => {
                assert(0 * other.value(at) == 0);
                lemma_congruent_refl(0);
            },
            Sum::Plus(c, m, r) => {
                let mv = m.value(at);
                other.lemma_scale_value(c, m, at);
                r.lemma_mul_value(other, at);
                other.scale(c, m).lemma_add_value(r.mul(other), at);
                lemma_congruent(
                    other.scale(c, m).value(at),
                    c * mv * other.value(at),
                    r.mul(other).value(at),
                    r.value(at) * other.value(at),
                );
                lemma_congruent_chain(
                    self.mul(other).value(at),
                    other.scale(c, m).value(at) + r.mul(other).value(at),
                    c * mv * other.value(at) + r.value(at) * other.value(at),
                );
                assert(c * mv * other.value(at) + r.value(at) * other.value(at) == (c * mv
                    + r.value(at)) * other.value(at)) by (nonlinear_arith);
            },
        }
    }

    /// Every monomial is greater than `m`.
    pub open spec fn above(self, m: Mono) -> bool {
        match self {
            Sum::Zero => true,
            Sum::Plus(_, n, _) => m.compare(n) == Order::Less,
        }
    }

    /// The sum is in normal form: the monomials are sorted and ascend, and no
    /// coefficient is zero.
    pub open spec fn normal(self) -> bool
        decreases self,
    {
        match self {
            Sum::Zero => true,
            Sum::Plus(c, m, r) => c != 0 && m.sorted() && r.normal() && r.above(m),
        }
    }

    /// The sum of one monomial with its coefficient; nothing where that is
    /// zero.
    pub open spec fn single(c: i32, m: Mono) -> Sum {
        if c == 0 {
            Sum::Zero
        } else {
            Sum::Plus(c, m, Box::new(Sum::Zero))
        }
    }

    /// The constant polynomial `c`.
    pub open spec fn constant(c: i32) -> Sum {
        Sum::single(c, Mono::One)
    }

    /// The polynomial that is the variable `x`.
    pub open spec fn variable(x: Identifier) -> Sum {
        Sum::Plus(1, Mono::Times(x, Box::new(Mono::One)), Box::new(Sum::Zero))
    }

    /// The sum of two polynomials: their monomials merged, the coefficients
    /// of one monomial added up, wrapping around.
    pub open spec fn add(self, other: Sum) -> Sum
        decreases self, other,
    {
        match self {
            Sum::Zero => other,
            Sum::Plus(c, m, r) => match other {
                Sum::Zero => self,
                Sum::Plus(d, n, s) => match m.compare(n) {
                    Order::Less => Sum::Plus(c, m, Box::new(r.add(other))),
                    Order::Greater => Sum::Plus(d, n, Box::new(self.add(*s))),
                    Order::Equal => {
                        let e = i32_specs::wrapping_add(c, d);
                        if e == 0 {
                            r.add(*s)
                        } else {
                            Sum::Plus(e, m, Box::new(r.add(*s)))
                        }
                    },
                },
            },
        }
    }

    /// The polynomial times the monomial `m` with the coefficient `c`.
    pub open spec fn scale(self, c: i32, m: Mono) -> Sum
        decreases self,
    {
        match self {
            Sum::Zero => Sum::Zero,
            Sum::Plus(d, n, r) => Sum::single(i32_specs::wrapping_mul(c, d), m.times(n)).add(
                r.scale(c, m),
            ),
        }
    }

    /// The product of two polynomials.
    pub open spec fn mul(self, other: Sum) -> Sum
        decreases self,
    {
        match self {
            Sum::Zero => Sum::Zero,
            Sum::Plus(c, m, r) => other.scale(c, m).add(r.mul(other)),
        }
    }

    /// The order of two polynomials: term by term, by the monomial first and
    /// by the coefficient then, and a polynomial before those that go on
    /// after it.
    pub open spec fn compare(self, other: Sum) -> Order
        decreases self,
    {
        match self {
            Sum::Zero => match other {
                Sum::Zero => Order::Equal,
                Sum::Plus(_, _, _) => Order::Less,
            },
            Sum::Plus(c, m, r) => match other {
                Sum::Zero => Order::Greater,
                Sum::Plus(d, n, s) => match m.compare(n) {
                    Order::Less => Order::Less,
                    Order::Greater => Order::Greater,
                    Order::Equal => if c < d {
                        Order::Less
                    } else if c > d {
                        Order::Greater
                    } else {
                        r.compare(*s)
                    },
                },
            },
        }
    }

    /// The monomial `m` with the polynomial `p` in the place of the variable
    /// `x`.
    pub open spec fn mono_subst(m: Mono, x: Identifier, p: Sum) -> Sum
        decreases m,
    {
        match m {
            Mono::One => Sum::constant(1),
            Mono::Times(v, r) => (if v == x {
                p
            } else {
                Sum::variable(v)
            }).mul(Sum::mono_subst(*r, x, p)),
        }
    }

    /// The polynomial with the polynomial `p` in the place of the variable
    /// `x`.
    pub open spec fn subst(self, x: Identifier, p: Sum) -> Sum
        decreases self,
    {
        match self {
            Sum::Zero => Sum::Zero,
            Sum::Plus(c, m, r) => Sum::mono_subst(m, x, p).scale(c, Mono::One).add(r.subst(x, p)),
        }
    }

    /// Polynomials compare equal exactly where they are the same.
    pub proof fn lemma_compare_equal(self, other: Sum)
        ensures
            self.compare(other) == Order::Equal <==> self == other,
        decreases self,
    {
        match self {
            Sum::Zero => {},
            Sum::Plus(c, m, r) => match other {
                Sum::Zero => {},
                Sum::Plus(d, n, s) => {
                    m.lemma_compare_equal(n);
                    r.lemma_compare_equal(*s);
                },
            },
        }
    }

    /// A polynomial in normal form stays in normal form where a polynomial in
    /// normal form is put in the place of a variable.
    pub proof fn lemma_subst_normal(self, x: Identifier, p: Sum)
        requires
            self.normal(),
            p.normal(),
        ensures
            self.subst(x, p).normal(),
        decreases self,
    {
        match self {
            Sum::Zero => {},
            Sum::Plus(c, m, r) => {
                Sum::lemma_mono_subst_normal(m, x, p);
                assert(Mono::One.sorted());
                Sum::mono_subst(m, x, p).lemma_scale_normal(c, Mono::One);
                r.lemma_subst_normal(x, p);
                Sum::mono_subst(m, x, p).scale(c, Mono::One).lemma_add_normal(r.subst(x, p));
            },
        }
    }

    /// [`Sum::lemma_subst_normal`] for one monomial.
    pub proof fn lemma_mono_subst_normal(m: Mono, x: Identifier, p: Sum)
        requires
            p.normal(),
        ensures
            Sum::mono_subst(m, x, p).normal(),
        decreases m,
    {
        match m {
            Mono::One => {
                Sum::lemma_single_normal(1, Mono::One);
            },
            Mono::Times(v, r) => {
                Sum::lemma_mono_subst_normal(*r, x, p);
                assert(Mono::One.sorted());
                Sum::lemma_single_normal(1, Mono::Times(v, Box::new(Mono::One)));
                if v == x {
                    p.lemma_mul_normal(Sum::mono_subst(*r, x, p));
                } else {
                    Sum::variable(v).lemma_mul_normal(Sum::mono_subst(*r, x, p));
                }
            },
        }
    }

    /// One monomial with its coefficient is in normal form.
    pub proof fn lemma_single_normal(c: i32, m: Mono)
        requires
            m.sorted(),
        ensures
            Sum::single(c, m).normal(),
    {
        if c != 0 {
            assert(Sum::Zero.normal());
            assert(Sum::Zero.above(m));
        }
    }

    /// The sum of two polynomials in normal form is in normal form, and
    /// above what both are above.
    pub proof fn lemma_add_normal(self, other: Sum)
        requires
            self.normal(),
            other.normal(),
        ensures
            self.add(other).normal(),
            forall|k: Mono| self.above(k) && other.above(k) ==> #[trigger] self.add(other).above(k),
        decreases self, other,
    {
        match self {
            Sum::Zero => {},
            Sum::Plus(c, m, r) => match other {
                Sum::Zero => {},
                Sum::Plus(d, n, s) => {
                    m.lemma_compare_flip(n);
                    m.lemma_compare_equal(n);
                    match m.compare(n) {
                        Order::Less => {
                            r.lemma_add_normal(other);
                            assert(r.add(other).above(m));
                        },
                        Order::Greater => {
                            self.lemma_add_normal(*s);
                            n.lemma_compare_flip(m);
                            assert(self.add(*s).above(n));
                        },
                        Order::Equal => {
                            r.lemma_add_normal(*s);
                            assert(r.add(*s).above(m));
                            assert forall|k: Mono|
                                self.above(k) && other.above(k) implies #[trigger] self.add(
                                other,
                            ).above(k) by {
                                match r.add(*s) {
                                    Sum::Zero => {},
                                    Sum::Plus(_, t, _) => {
                                        k.lemma_compare_trans(m, t);
                                    },
                                }
                            }
                        },
                    }
                },
            },
        }
    }

    /// A polynomial in normal form times a monomial is in normal form.
    pub proof fn lemma_scale_normal(self, c: i32, m: Mono)
        requires
            self.normal(),
            m.sorted(),
        ensures
            self.scale(c, m).normal(),
        decreases self,
    {
        match self {
            Sum::Zero => {},
            Sum::Plus(d, n, r) => {
                r.lemma_scale_normal(c, m);
                m.lemma_times_sorted(n, 0);
                Sum::lemma_single_normal(i32_specs::wrapping_mul(c, d), m.times(n));
                Sum::single(i32_specs::wrapping_mul(c, d), m.times(n)).lemma_add_normal(
                    r.scale(c, m),
                );
            },
        }
    }

    /// The product of two polynomials in normal form is in normal form.
    pub proof fn lemma_mul_normal(self, other: Sum)
        requires
            self.normal(),
            other.normal(),
        ensures
            self.mul(other).normal(),
        decreases self,
    {
        match self {
            Sum::Zero => {},
            Sum::Plus(c, m, r) => {
                other.lemma_scale_normal(c, m);
                r.lemma_mul_normal(other);
                other.scale(c, m).lemma_add_normal(r.mul(other));
            },
        }
    }

    /// The constant polynomial `c`.
    pub fn from_constant(c: i32) -> (p: Sum)
        ensures
            p == Sum::constant(c),
            p.normal(),
    {
        proof {
            Sum::lemma_single_normal(c, Mono::One);
        }
        Sum::one_term(c, Mono::One)
    }

    /// The polynomial that is the variable `x`.
    pub fn from_variable(x: Identifier) -> (p: Sum)
        ensures
            p == Sum::variable(x),
            p.normal(),
    {
        proof {
            assert(Mono::One.sorted());
            Sum::lemma_single_normal(1, Mono::Times(x, Box::new(Mono::One)));
        }
        Sum::Plus(1, Mono::of(x), Box::new(Sum::Zero))
    }

    /// The sum of one monomial with its coefficient: see [`Sum::single`].
    pub fn one_term(c: i32, m: Mono) -> (p: Sum)
        ensures
            p == Sum::single(c, m),
    {
        if c == 0 {
            Sum::Zero
        } else {
            Sum::Plus(c, m, Box::new(Sum::Zero))
        }
    }

    /// An independent copy.
    pub fn copy(&self) -> (p: Sum)
        ensures
            p == *self,
        decreases *self,
    {
        match self {
            Sum::Zero => Sum::Zero,
            Sum::Plus(c, m, r) => Sum::Plus(*c, m.copy(), Box::new(r.copy())),
        }
    }

    /// Whether two polynomials are the same.
    pub fn same(&self, other: &Sum) -> (r: bool)
        ensures
            r == (*self == *other),
        decreases *self,
    {
        match self {
            Sum::Zero => match other {
                Sum::Zero => true,
                Sum::Plus(_, _, _) => false,
            },
            Sum::Plus(c, m, r) => match other {
                Sum::Zero => false,
                Sum::Plus(d, n, s) => *c == *d && m.same(n) && r.same(s),
            },
        }
    }

    /// The sum of two polynomials: see [`Sum::add`].
    pub fn plus(&self, other: &Sum) -> (p: Sum)
        ensures
            p == self.add(*other),
        decreases *self, *other,
    {
        match self {
            Sum::Zero => other.copy(),
            Sum::Plus(c, m, r) => match other {
                Sum::Zero => self.copy(),
                Sum::Plus(d, n, s) => match m.order(n) {
                    Order::Less => Sum::Plus(*c, m.copy(), Box::new(r.plus(other))),
                    Order::Greater => Sum::Plus(*d, n.copy(), Box::new(self.plus(s))),
                    Order::Equal => {
                        let e = c.wrapping_add(*d);
                        if e == 0 {
                            r.plus(s)
                        } else {
                            Sum::Plus(e, m.copy(), Box::new(r.plus(s)))
                        }
                    },
                },
            },
        }
    }

    /// The polynomial times a monomial with a coefficient: see
    /// [`Sum::scale`].
    pub fn scaled(&self, c: i32, m: &Mono) -> (p: Sum)
        ensures
            p == self.scale(c, *m),
        decreases *self,
    {
        match self {
            Sum::Zero => Sum::Zero,
            Sum::Plus(d, n, r) => {
                let first = Sum::one_term(c.wrapping_mul(*d), m.product(n));
                first.plus(&r.scaled(c, m))
            },
        }
    }

    /// The product of two polynomials: see [`Sum::mul`].
    pub fn times(&self, other: &Sum) -> (p: Sum)
        ensures
            p == self.mul(*other),
        decreases *self,
    {
        match self {
            Sum::Zero => Sum::Zero,
            Sum::Plus(c, m, r) => other.scaled(*c, m).plus(&r.times(other)),
        }
    }
    /// The order of two polynomials: see [`Sum::compare`].
    pub fn order(&self, other: &Sum) -> (o: Order)
        ensures
            o == self.compare(*other),
        decreases *self,
    {
        match self {
            Sum::Zero => match other {
                Sum::Zero => Order::Equal,
                Sum::Plus(_, _, _) => Order::Less,
            },
            Sum::Plus(c, m, r) => match other {
                Sum::Zero => Order::Greater,
                Sum::Plus(d, n, s) => match m.order(n) {
                    Order::Less => Order::Less,
                    Order::Greater => Order::Greater,
                    Order::Equal => if *c < *d {
                        Order::Less
                    } else if *c > *d {
                        Order::Greater
                    } else {
                        r.order(s)
                    },
                },
            },
        }
    }

    /// A monomial with a polynomial in the place of a variable: see
    /// [`Sum::mono_subst`].
    pub fn mono_replaced(m: &Mono, x: Identifier, p: &Sum) -> (q: Sum)
        ensures
            q == Sum::mono_subst(*m, x, *p),
        decreases *m,
    {
        match m {
            Mono::One => Sum::from_constant(1),
            Mono::Times(v, r) => {
                let rest = Sum::mono_replaced(r, x, p);
                if *v == x {
                    p.times(&rest)
                } else {
                    Sum::from_variable(*v).times(&rest)
                }
            },
        }
    }

    /// The polynomial with a polynomial in the place of a variable: see
    /// [`Sum::subst`].
    pub fn replaced(&self, x: Identifier, p: &Sum) -> (q: Sum)
        ensures
            q == self.subst(x, *p),
        decreases *self,
    {
        match self {
            Sum::Zero => Sum::Zero,
            Sum::Plus(c, m, r) => {
                let first = Sum::mono_replaced(m, x, p).scaled(*c, &Mono::One);
                first.plus(&r.replaced(x, p))
            },
        }
    }
}

} // verus!
