//! Polynomials of degree at most two over circuit variables.
use crate::field;
use crate::field::{Mersenne31Field, MERSENNE31_ORDER};
use vstd::prelude::*;

verus! {

/// A variable of a circuit, by its number.
#[derive(Clone, Copy, PartialEq, Eq, Structural, Debug, Hash)]
pub struct Variable(pub usize);

/// A boolean of a circuit: a variable that is constrained to zero and one, the negation of such a
/// variable, or a constant.
#[derive(Clone, Copy, PartialEq, Eq, Structural, Debug)]
pub enum Boolean {
    Is(Variable),
    Not(Variable),
    Constant(bool),
}

impl Boolean {
    /// The value under the witness `w`.
    pub open spec fn value(self, w: spec_fn(Variable) -> int) -> int {
        match self {
            Boolean::Is(v) => w(v),
            Boolean::Not(v) => 1 - w(v),
            Boolean::Constant(b) => if b {
                1
            } else {
                0
            },
        }
    }

    pub fn get_variable(&self) -> (r: Option<Variable>)
        ensures
            r == match *self {
                Boolean::Is(v) => Some(v),
                Boolean::Not(v) => Some(v),
                Boolean::Constant(_) => None::<Variable>,
            },
    {
        match self {
            Boolean::Is(v) => Some(*v),
            Boolean::Not(v) => Some(*v),
            Boolean::Constant(_) => None,
        }
    }

    pub open spec fn negation(self) -> Boolean {
        match self {
            Boolean::Is(v) => Boolean::Not(v),
            Boolean::Not(v) => Boolean::Is(v),
            Boolean::Constant(b) => Boolean::Constant(!b),
        }
    }

    /// The negation.
    pub fn toggle(&self) -> (r: Boolean)
        ensures
            r == self.negation(),
            forall|w: spec_fn(Variable) -> int| #[trigger] r.value(w) == 1 - self.value(w),
    {
        match self {
            Boolean::Is(v) => Boolean::Not(*v),
            Boolean::Not(v) => Boolean::Is(*v),
            Boolean::Constant(b) => Boolean::Constant(!*b),
        }
    }
}

/// A 32-bit value in two limbs of 16 bits, the lower one first.
#[derive(Clone, Copy, PartialEq, Eq, Structural, Debug)]
pub struct Register {
    pub low: Variable,
    pub high: Variable,
}

impl Register {
    /// The value under the witness `w`.
    pub open spec fn value(self, w: spec_fn(Variable) -> int) -> int {
        w(self.low) + 0x1_0000 * w(self.high)
    }

    /// Whether both limbs hold 16-bit values.
    pub open spec fn in_range(self, w: spec_fn(Variable) -> int) -> bool {
        0 <= w(self.low) < 0x1_0000 && 0 <= w(self.high) < 0x1_0000
    }

    /// Number of variables that a register takes.
    pub fn set_size() -> (r: usize)
        ensures
            r == 2,
    {
        2
    }

    /// Appends the limbs, the lower one first.
    pub fn append_into_variables_set(&self, dst: &mut Vec<Variable>)
        ensures
            final(dst)@ == old(dst)@.push(self.low).push(self.high),
    {
        dst.push(self.low);
        dst.push(self.high);
    }
}

/// A coefficient times at most two variables.
#[derive(Clone, Copy, PartialEq, Eq, Structural, Debug)]
pub struct Term {
    pub coefficient: Mersenne31Field,
    pub first: Option<Variable>,
    pub second: Option<Variable>,
}

pub open spec fn factor(v: Option<Variable>, w: spec_fn(Variable) -> int) -> int {
    match v {
        Some(x) => w(x),
        None => 1,
    }
}

impl Term {
    pub open spec fn value(self, w: spec_fn(Variable) -> int) -> int {
        self.coefficient@ * (factor(self.first, w) * factor(self.second, w))
    }

    pub open spec fn spec_degree(self) -> int {
        (if self.first is Some {
            1int
        } else {
            0
        }) + (if self.second is Some {
            1int
        } else {
            0
        })
    }
}

/// The sum of some terms under a witness.
pub open spec fn sum_of(terms: Seq<Term>, w: spec_fn(Variable) -> int) -> int
    decreases terms.len(),
{
    if terms.len() == 0 {
        0
    } else {
        sum_of(terms.drop_last(), w) + terms.last().value(w)
    }
}

proof fn lemma_sum_push(terms: Seq<Term>, t: Term, w: spec_fn(Variable) -> int)
    ensures
        sum_of(terms.push(t), w) == sum_of(terms, w) + t.value(w),
{
    assert(terms.push(t).drop_last() =~= terms);
}

/// A polynomial of degree at most two, as a list of terms.
pub struct Constraint {
    terms: Vec<Term>,
}

/// Congruences survive sums, differences and products.
pub proof fn lemma_combine(y: int, z: int)
    ensures
        field::residue(field::residue(y) + field::residue(z)) == field::residue(y + z),
        field::residue(field::residue(y) - field::residue(z)) == field::residue(y - z),
        field::residue(field::residue(y) * field::residue(z)) == field::residue(y * z),
        field::residue(field::residue(y)) == field::residue(y),
{
    vstd::arithmetic::div_mod::lemma_add_mod_noop(y, z, 0x7fff_ffff);
    vstd::arithmetic::div_mod::lemma_sub_mod_noop(y, z, 0x7fff_ffff);
    vstd::arithmetic::div_mod::lemma_mul_mod_noop(y, z, 0x7fff_ffff);
}

impl Constraint {
    pub closed spec fn view(&self) -> Seq<Term> {
        self.terms@
    }

    /// The value of the polynomial under the witness `w`.
    pub open spec fn value(&self, w: spec_fn(Variable) -> int) -> int {
        field::residue(sum_of(self@, w))
    }

    /// Whether every term has degree at most one.
    pub open spec fn is_linear(&self) -> bool {
        forall|i: int| 0 <= i < self@.len() ==> (#[trigger] self@[i]).second is None
    }

    /// The terms of the polynomial.
    pub fn terms(&self) -> (r: &Vec<Term>)
        ensures
            r@ == self@,
    {
        &self.terms
    }

    /// The zero polynomial.
    pub fn empty() -> (r: Self)
        ensures
            r@.len() == 0,
            forall|w: spec_fn(Variable) -> int| #[trigger] r.value(w) == 0,
            r.is_linear(),
    {
        Constraint { terms: Vec::new() }
    }

    /// A constant.
    pub fn constant(c: u32) -> (r: Self)
        ensures
            forall|w: spec_fn(Variable) -> int| #[trigger]
                r.value(w) == field::residue(c as int),
            r.is_linear(),
    {
        let term = Term {
            coefficient: Mersenne31Field::from_nonreduced_u32(c),
            first: None,
            second: None,
        };
        let mut terms: Vec<Term> = Vec::new();
        terms.push(term);
        let r = Constraint { terms };
        proof {
            assert forall|w: spec_fn(Variable) -> int| #[trigger]
                r.value(w) == field::residue(c as int) by {
                lemma_sum_push(Seq::empty(), term, w);
                assert(r@ =~= Seq::empty().push(term));
                assert(term.coefficient@ * (1int * 1int) == term.coefficient@);
                lemma_combine(c as int, 0);
            }
        }
        r
    }

    /// A variable times a constant.
    pub fn weighted(v: Variable, c: u32) -> (r: Self)
        ensures
            r@.len() == 1,
            r@[0].first == Some(v),
            forall|w: spec_fn(Variable) -> int| #[trigger]
                r.value(w) == field::residue(c * w(v)),
            r.is_linear(),
    {
        let term = Term {
            coefficient: Mersenne31Field::from_nonreduced_u32(c),
            first: Some(v),
            second: None,
        };
        let mut terms: Vec<Term> = Vec::new();
        terms.push(term);
        let r = Constraint { terms };
        proof {
            assert forall|w: spec_fn(Variable) -> int| #[trigger]
                r.value(w) == field::residue(c * w(v)) by {
                lemma_sum_push(Seq::empty(), term, w);
                assert(r@ =~= Seq::empty().push(term));
                assert(w(v) * 1 == w(v));
                field::lemma_residue_absorb(c as int, w(v));
            }
        }
        r
    }

    /// A boolean times a constant.
    pub fn weighted_boolean(b: Boolean, c: u32) -> (r: Self)
        ensures
            forall|w: spec_fn(Variable) -> int| #[trigger]
                r.value(w) == field::residue(c * b.value(w)),
            r.is_linear(),
    {
        match b {
            Boolean::Is(v) => Constraint::weighted(v, c),
            Boolean::Not(v) => {
                let all = Constraint::constant(c);
                let r = all.minus(&Constraint::weighted(v, c));
                proof {
                    assert forall|w: spec_fn(Variable) -> int| #[trigger]
                        r.value(w) == field::residue(c * b.value(w)) by {
                        lemma_combine(c as int, c * w(v));
                        assert(c - c * w(v) == c * (1 - w(v))) by (nonlinear_arith);
                    }
                }
                r
            },
            Boolean::Constant(true) => {
                assert(c * 1 == c);
                Constraint::constant(c)
            },
            Boolean::Constant(false) => {
                assert(c * 0 == 0);
                Constraint::constant(0)
            },
        }
    }

    /// A copy.
    pub fn duplicate(&self) -> (r: Self)
        ensures
            r@ == self@,
    {
        let mut terms: Vec<Term> = Vec::new();
        let mut i: usize = 0;
        while i < self.terms.len()
            invariant
                i <= self.terms@.len(),
                terms@ == self.terms@.take(i as int),
            decreases self.terms@.len() - i,
        {
            terms.push(self.terms[i]);
            assert(self.terms@.take(i + 1) =~= self.terms@.take(i as int).push(self.terms@[i as int]));
            i = i + 1;
        }
        assert(self.terms@.take(self.terms@.len() as int) =~= self.terms@);
        Constraint { terms }
    }

    /// The sum.
    pub fn plus(self, other: &Constraint) -> (r: Self)
        ensures
            r@ == self@ + other@,
            forall|w: spec_fn(Variable) -> int| #[trigger]
                r.value(w) == field::residue(self.value(w) + other.value(w)),
            self.is_linear() && other.is_linear() ==> r.is_linear(),
    {
        let ghost initial = self@;
        let mut terms = self.terms;
        let mut i: usize = 0;
        while i < other.terms.len()
            invariant
                i <= other.terms@.len(),
                terms@ == initial + other.terms@.take(i as int),
            decreases other.terms@.len() - i,
        {
            terms.push(other.terms[i]);
            assert(other.terms@.take(i + 1) =~= other.terms@.take(i as int).push(
                other.terms@[i as int],
            ));
            assert(terms@ =~= initial + other.terms@.take(i + 1));
            i = i + 1;
        }
        assert(other.terms@.take(other.terms@.len() as int) =~= other.terms@);
        let r = Constraint { terms };
        proof {
            assert forall|w: spec_fn(Variable) -> int| #[trigger]
                r.value(w) == field::residue(self.value(w) + other.value(w)) by {
                lemma_sum_concat(self@, other@, w);
                lemma_combine(sum_of(self@, w), sum_of(other@, w));
            }
        }
        r
    }

    /// The polynomial times a constant.
    pub fn scaled(&self, c: Mersenne31Field) -> (r: Self)
        ensures
            r@.len() == self@.len(),
            forall|w: spec_fn(Variable) -> int| #[trigger]
                r.value(w) == field::residue(self.value(w) * c@),
            self.is_linear() ==> r.is_linear(),
    {
        let mut terms: Vec<Term> = Vec::new();
        let mut i: usize = 0;
        while i < self.terms.len()
            invariant
                i <= self.terms@.len(),
                terms@.len() == i,
                forall|j: int|
                    #![trigger terms@[j]]
                    0 <= j < i ==> terms@[j].first == self.terms@[j].first && terms@[j].second
                        == self.terms@[j].second && terms@[j].coefficient@ == field::residue(
                        self.terms@[j].coefficient@ * c@,
                    ),
            decreases self.terms@.len() - i,
        {
            let t = self.terms[i];
            let mut coefficient = t.coefficient;
            coefficient.mul_assign(&c);
            terms.push(Term { coefficient, first: t.first, second: t.second });
            i = i + 1;
        }
        let r = Constraint { terms };
        proof {
            assert forall|w: spec_fn(Variable) -> int| #[trigger]
                r.value(w) == field::residue(self.value(w) * c@) by {
                lemma_sum_scaled(self@, r@, c@, w);
                field::lemma_residue_absorb(sum_of(self@, w), c@);
            }
        }
        r
    }

    /// The difference.
    pub fn minus(self, other: &Constraint) -> (r: Self)
        ensures
            forall|w: spec_fn(Variable) -> int| #[trigger]
                r.value(w) == field::residue(self.value(w) - other.value(w)),
            self.is_linear() && other.is_linear() ==> r.is_linear(),
    {
        let negated = other.scaled(Mersenne31Field::new(MERSENNE31_ORDER - 1));
        let r = self.plus(&negated);
        proof {
            assert forall|w: spec_fn(Variable) -> int| #[trigger]
                r.value(w) == field::residue(self.value(w) - other.value(w)) by {
                let v = other.value(w);
                assert(negated.value(w) == field::residue(v * 0x7fff_fffe));
                assert(v * 0x7fff_fffe == -v + 0x7fff_ffff * v);
                assert(field::residue(-v + 0x7fff_ffff * v) == field::residue(-v)) by {
                    vstd::arithmetic::div_mod::lemma_mod_multiples_vanish(v, -v, 0x7fff_ffff);
                }
                field::lemma_residue_absorb(self.value(w), -v);
            }
        }
        r
    }

    /// The product of two polynomials of degree at most one.
    pub fn times(&self, other: &Constraint) -> (r: Self)
        requires
            self.is_linear(),
            other.is_linear(),
        ensures
            forall|w: spec_fn(Variable) -> int| #[trigger]
                r.value(w) == field::residue(self.value(w) * other.value(w)),
    {
        let mut r = Constraint::empty();
        let mut i: usize = 0;
        while i < self.terms.len()
            invariant
                i <= self.terms@.len(),
                self.is_linear(),
                other.is_linear(),
                forall|w: spec_fn(Variable) -> int| #[trigger]
                    r.value(w) == field::residue(
                        sum_of(self@.take(i as int), w) * sum_of(other@, w),
                    ),
            decreases self.terms@.len() - i,
        {
            let t = self.terms[i];
            assert(self@[i as int].second is None);
            let row = other.times_term(t);
            let ghost before = r;
            r = r.plus(&row);
            proof {
                assert(self@.take(i + 1) =~= self@.take(i as int).push(t));
                assert forall|w: spec_fn(Variable) -> int| #[trigger]
                    r.value(w) == field::residue(sum_of(self@.take(i + 1), w) * sum_of(other@, w)) by {
                    assert(r.value(w) == field::residue(before.value(w) + row.value(w)));
                    let a = sum_of(self@.take(i as int), w);
                    let b = sum_of(other@, w);
                    lemma_sum_push(self@.take(i as int), t, w);
                    lemma_combine(a * b, t.value(w) * b);
                    assert(a * b + t.value(w) * b == (a + t.value(w)) * b) by (nonlinear_arith);
                }
            }
            i = i + 1;
        }
        proof {
            assert(self@.take(self@.len() as int) =~= self@);
            assert forall|w: spec_fn(Variable) -> int| #[trigger]
                r.value(w) == field::residue(self.value(w) * other.value(w)) by {
                lemma_combine(sum_of(self@, w), sum_of(other@, w));
            }
        }
        r
    }

    fn times_term(&self, t: Term) -> (r: Self)
        requires
            self.is_linear(),
            t.second is None,
        ensures
            forall|w: spec_fn(Variable) -> int| #[trigger]
                r.value(w) == field::residue(t.value(w) * sum_of(self@, w)),
    {
        let mut terms: Vec<Term> = Vec::new();
        let mut i: usize = 0;
        while i < self.terms.len()
            invariant
                i <= self.terms@.len(),
                self.is_linear(),
                t.second is None,
                terms@.len() == i,
                forall|w: spec_fn(Variable) -> int| #[trigger]
                    field::residue(sum_of(terms@, w)) == field::residue(
                        t.value(w) * sum_of(self@.take(i as int), w),
                    ),
            decreases self.terms@.len() - i,
        {
            let u = self.terms[i];
            assert(self@[i as int].second is None);
            let mut coefficient = u.coefficient;
            coefficient.mul_assign(&t.coefficient);
            let product = match t.first {
                None => Term { coefficient, first: u.first, second: None },
                Some(v) => Term { coefficient, first: Some(v), second: u.first },
            };
            let ghost before = terms@;
            terms.push(product);
            proof {
                assert(self@.take(i + 1) =~= self@.take(i as int).push(u));
                assert forall|w: spec_fn(Variable) -> int| #[trigger]
                    field::residue(sum_of(terms@, w)) == field::residue(
                        t.value(w) * sum_of(self@.take(i + 1), w),
                    ) by {
                    lemma_sum_push(before, product, w);
                    lemma_sum_push(self@.take(i as int), u, w);
                    let (a, b) = (factor(t.first, w), factor(u.first, w));
                    let s = sum_of(self@.take(i as int), w);
                    lemma_product_term(t.coefficient@, u.coefficient@, a, b);
                    assert(field::residue(product.value(w)) == field::residue(
                        t.value(w) * u.value(w),
                    )) by {
                        assert(a * b == b * a) by (nonlinear_arith);
                        assert(1 * b == b && b * 1 == b && a * 1 == a);
                    }
                    assert(field::residue(sum_of(before, w)) == field::residue(t.value(w) * s));
                    lemma_combine(sum_of(before, w), product.value(w));
                    lemma_combine(t.value(w) * s, t.value(w) * u.value(w));
                    assert(t.value(w) * s + t.value(w) * u.value(w) == t.value(w) * (s + u.value(
                        w,
                    ))) by (nonlinear_arith);
                }
            }
            i = i + 1;
        }
        assert(self@.take(self@.len() as int) =~= self@);
        Constraint { terms }
    }

    /// The greatest number of variables in a term.
    pub fn degree(&self) -> (r: usize)
        ensures
            r <= 2,
            self.is_linear() ==> r <= 1,
            forall|i: int| 0 <= i < self@.len() ==> (#[trigger] self@[i]).spec_degree() <= r,
            r > 0 ==> exists|i: int|
                0 <= i < self@.len() && (#[trigger] self@[i]).spec_degree() == r,
    {
        let mut degree: usize = 0;
        let mut i: usize = 0;
        while i < self.terms.len()
            invariant
                i <= self.terms@.len(),
                degree <= 2,
                self.is_linear() ==> degree <= 1,
                forall|j: int| 0 <= j < i ==> (#[trigger] self@[j]).spec_degree() <= degree,
                degree > 0 ==> exists|j: int|
                    0 <= j < i && (#[trigger] self@[j]).spec_degree() == degree,
            decreases self.terms@.len() - i,
        {
            let t = self.terms[i];
            assert(self@[i as int] == t);
            let mut d: usize = 0;
            if t.first.is_some() {
                d = d + 1;
            }
            if t.second.is_some() {
                d = d + 1;
            }
            assert(self@[i as int].spec_degree() == d);
            if d > degree {
                degree = d;
            }
            i = i + 1;
        }
        degree
    }
}

proof fn lemma_product_term(c: int, d: int, a: int, b: int)
    ensures
        field::residue(field::residue(d * c) * (a * b)) == field::residue((c * a) * (d * b)),
{
    field::lemma_residue_absorb(d * c, a * b);
    assert((d * c) * (a * b) == (c * a) * (d * b)) by (nonlinear_arith);
}

proof fn lemma_sum_concat(a: Seq<Term>, b: Seq<Term>, w: spec_fn(Variable) -> int)
    ensures
        sum_of(a + b, w) == sum_of(a, w) + sum_of(b, w),
    decreases b.len(),
{
    if b.len() == 0 {
        assert(a + b =~= a);
    } else {
        lemma_sum_concat(a, b.drop_last(), w);
        assert((a + b).drop_last() =~= a + b.drop_last());
        assert((a + b).last() == b.last());
    }
}

proof fn lemma_sum_scaled(a: Seq<Term>, b: Seq<Term>, c: int, w: spec_fn(Variable) -> int)
    requires
        a.len() == b.len(),
        forall|j: int|
            #![trigger b[j]]
            0 <= j < a.len() ==> b[j].first == a[j].first && b[j].second == a[j].second
                && b[j].coefficient@ == field::residue(a[j].coefficient@ * c),
    ensures
        field::residue(sum_of(b, w)) == field::residue(sum_of(a, w) * c),
    decreases a.len(),
{
    if a.len() > 0 {
        let (x, y) = (a.last(), b.last());
        lemma_sum_scaled(a.drop_last(), b.drop_last(), c, w);
        let f = factor(x.first, w) * factor(x.second, w);
        assert(y == b[b.len() - 1]);
        field::lemma_residue_absorb(x.coefficient@ * c, f);
        assert(x.coefficient@ * c * f == x.coefficient@ * f * c) by (nonlinear_arith);
        let (s, t) = (sum_of(a.drop_last(), w), sum_of(b.drop_last(), w));
        lemma_combine(t, y.value(w));
        lemma_combine(s * c, x.value(w) * c);
        assert(s * c + x.value(w) * c == (s + x.value(w)) * c) by (nonlinear_arith);
    }
}

/// What a boolean, a register and a term are worth under a witness.
pub proof fn law_values(v: Variable, low: Variable, high: Variable, w: spec_fn(Variable) -> int)
    ensures
        Boolean::Is(v).value(w) == w(v),
        Boolean::Not(v).value(w) + w(v) == 1,
        Boolean::Constant(true).value(w) == 1,
        Boolean::Constant(false).value(w) == 0,
        (Register { low, high }).value(w) == w(low) + 0x1_0000 * w(high),
{
}

/// The value of a polynomial is the sum of its terms, each of which is its coefficient times its
/// variables.
pub proof fn law_polynomials_are_sums(
    a: Seq<Term>,
    b: Seq<Term>,
    c: Mersenne31Field,
    x: Variable,
    y: Variable,
    w: spec_fn(Variable) -> int,
)
    ensures
        sum_of(seq![], w) == 0,
        sum_of(a + b, w) == sum_of(a, w) + sum_of(b, w),
        sum_of(seq![Term { coefficient: c, first: None, second: None }], w) == c@,
        sum_of(seq![Term { coefficient: c, first: Some(x), second: None }], w) == c@ * w(x),
        sum_of(seq![Term { coefficient: c, first: Some(x), second: Some(y) }], w) == c@ * (w(x)
            * w(y)),
{
    lemma_sum_concat(a, b, w);
    let constant = Term { coefficient: c, first: None, second: None };
    let linear = Term { coefficient: c, first: Some(x), second: None };
    let product = Term { coefficient: c, first: Some(x), second: Some(y) };
    assert(seq![constant].drop_last() =~= seq![]);
    assert(seq![linear].drop_last() =~= seq![]);
    assert(seq![product].drop_last() =~= seq![]);
    assert(sum_of(seq![], w) == 0);
    let (k, v) = (c@, w(x));
    assert(k * (1 * 1) == k && k * (v * 1) == k * v) by (nonlinear_arith);
}

/// A term has as many variables as its degree says, and a linear polynomial has no product of two.
pub proof fn law_degrees(c: Constraint, i: int)
    requires
        0 <= i < c@.len(),
    ensures
        c@[i].first is None && c@[i].second is None ==> c@[i].spec_degree() == 0,
        c@[i].first is Some && c@[i].second is None ==> c@[i].spec_degree() == 1,
        c@[i].first is None && c@[i].second is Some ==> c@[i].spec_degree() == 1,
        c@[i].first is Some && c@[i].second is Some ==> c@[i].spec_degree() == 2,
        c.is_linear() ==> c@[i].second is None,
{
}

} // verus!
