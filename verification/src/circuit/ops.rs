//! Addition and subtraction, and the context that merges the relations of all families.
use crate::bits;
use crate::circuit::assembly::{
    BasicAssembly, OutsideValues, SumRule, TableContents, WitnessRule,
};
use crate::circuit::expression;
use crate::circuit::expression::{Boolean, Constraint, Register, Variable};
use crate::circuit::flags;
use crate::circuit::flags::{
    BasicFlagsSource, DecoderInstructionVariantsKey, DecoderMajorInstructionFamilyKey,
    InstructionType, ADD_OP_KEY, SUB_OP_KEY,
};
use crate::field;
use crate::prime;
use crate::simulator::instruction::{OP_IMM_SUBMASK, OP_SUBMASK};
use vstd::arithmetic::power2;
use vstd::prelude::*;

verus! {

/// `x + y = z + 2^32 * overflow`, to hold where `exec_flag` is set.
#[derive(Clone, Copy, Debug)]
pub struct AddRelation {
    pub x: Register,
    pub y: Register,
    pub z: Register,
    pub exec_flag: Boolean,
}

/// A result register with its carries, shared by relations of which at most one is active.
pub struct AddSlot {
    pub result: Register,
    pub carry: Boolean,
    pub overflow: Boolean,
    pub relations: Vec<AddRelation>,
}

/// The deviation of a relation in its lower limb, times its flag.
pub open spec fn low_deviation(
    r: AddRelation,
    carry: Boolean,
    w: spec_fn(Variable) -> int,
) -> int {
    r.exec_flag.value(w) * (w(r.x.low) + w(r.y.low) - w(r.z.low) - 0x1_0000 * carry.value(w))
}

/// The deviation of a relation in its upper limb, times its flag.
pub open spec fn high_deviation(
    r: AddRelation,
    carry: Boolean,
    overflow: Boolean,
    w: spec_fn(Variable) -> int,
) -> int {
    r.exec_flag.value(w) * (w(r.x.high) + w(r.y.high) + carry.value(w) - w(r.z.high) - 0x1_0000
        * overflow.value(w))
}

pub open spec fn low_deviations(
    relations: Seq<AddRelation>,
    carry: Boolean,
    w: spec_fn(Variable) -> int,
) -> int
    decreases relations.len(),
{
    if relations.len() == 0 {
        0
    } else {
        low_deviations(relations.drop_last(), carry, w) + low_deviation(relations.last(), carry, w)
    }
}

pub open spec fn high_deviations(
    relations: Seq<AddRelation>,
    carry: Boolean,
    overflow: Boolean,
    w: spec_fn(Variable) -> int,
) -> int
    decreases relations.len(),
{
    if relations.len() == 0 {
        0
    } else {
        high_deviations(relations.drop_last(), carry, overflow, w) + high_deviation(
            relations.last(),
            carry,
            overflow,
            w,
        )
    }
}

impl AddSlot {
    /// What the slot demands of a witness: limbs of 16 bits, and that the flagged deviations add up
    /// to nothing, limb by limb.
    pub open spec fn demands(self, w: spec_fn(Variable) -> int) -> bool {
        &&& 0 <= w(self.result.low) < power2::pow2(16)
        &&& 0 <= w(self.result.high) < power2::pow2(16)
        &&& field::residue(low_deviations(self.relations@, self.carry, w)) == 0
        &&& field::residue(high_deviations(self.relations@, self.carry, self.overflow, w)) == 0
    }
}

/// Collects the relations of all families, to merge them into one set of constraints at the end.
/// A family that asks for its first relation shares the slot of the other families' first ones.
pub struct OptimizationContext {
    slots: Vec<AddSlot>,
    next_slot: usize,
}

impl OptimizationContext {
    pub closed spec fn slots(&self) -> Seq<AddSlot> {
        self.slots@
    }

    /// The slot that the next relation of the current family takes.
    pub closed spec fn next_slot(&self) -> int {
        self.next_slot as int
    }

    pub open spec fn well_formed(&self) -> bool {
        0 <= self.next_slot() <= self.slots().len()
    }

    pub fn new() -> (r: Self)
        ensures
            r.well_formed(),
            r.slots().len() == 0,
            r.next_slot() == 0,
    {
        OptimizationContext { slots: Vec::new(), next_slot: 0 }
    }

    /// Starts a new family.
    pub fn reset_indexers(&mut self)
        ensures
            final(self).well_formed(),
            final(self).slots() == old(self).slots(),
            final(self).next_slot() == 0,
    {
        self.next_slot = 0;
    }

    /// Puts a relation into the next slot, which is allocated if it is not there yet.
    fn append(
        &mut self,
        a: Register,
        b: Register,
        subtract: bool,
        exec_flag: Boolean,
        cs: &mut BasicAssembly,
    ) -> (r: (Register, Boolean))
        requires
            old(self).well_formed(),
            old(cs).next() + 4 <= usize::MAX,
        ensures
            is_appended(
                *old(self),
                *final(self),
                *old(cs),
                *final(cs),
                a,
                b,
                subtract,
                exec_flag,
                r,
            ),
    {
        let i: usize = self.next_slot;
        if i == self.slots.len() {
            let low = cs.add_variable();
            let high = cs.add_variable();
            let ghost with_limbs = *cs;
            assert(forall|w: spec_fn(Variable) -> int, t: TableContents| #[trigger]
                with_limbs.satisfied(w, t) <==> old(cs).satisfied(w, t));
            let carry = cs.add_boolean_variable();
            let ghost with_carry = *cs;
            let overflow = cs.add_boolean_variable();
            proof {
                assert forall|w: spec_fn(Variable) -> int, t: TableContents| #[trigger]
                    cs.satisfied(w, t) <==> old(cs).satisfied(w, t) && slot_is_boolean(
                        carry,
                        overflow,
                        w,
                    ) by {
                    assert(with_carry.satisfied(w, t) <==> with_limbs.satisfied(w, t)
                        && field::residue(carry.value(w) * (carry.value(w) - 1)) == 0);
                }
            }
            self.slots.push(
                AddSlot {
                    result: Register { low, high },
                    carry,
                    overflow,
                    relations: Vec::new(),
                },
            );
        }
        let result = self.slots[i].result;
        let carry = self.slots[i].carry;
        let overflow = self.slots[i].overflow;
        let relation = if subtract {
            AddRelation { x: b, y: result, z: a, exec_flag }
        } else {
            AddRelation { x: a, y: b, z: result, exec_flag }
        };
        let ghost slots_before = self.slots@;
        self.slots[i].relations.push(relation);
        assert(forall|k: int|
            0 <= k < slots_before.len() && k != i ==> self.slots@[k] == #[trigger] slots_before[k]);
        let count: usize = self.slots.len();
        assert(i < count);
        self.next_slot = i + 1;
        let ghost before_rule = *cs;
        let rule = SumRule { a, b, subtract, exec_flag, result, carry, overflow };
        cs.set_values(WitnessRule::Sum(rule));
        proof {
            assert(forall|w: spec_fn(Variable) -> int, t: TableContents| #[trigger]
                cs.satisfied(w, t) <==> before_rule.satisfied(w, t));
            assert(forall|w: spec_fn(Variable) -> int, t: TableContents, x: OutsideValues|
                #[trigger] before_rule.computed(w, t, x) <==> old(cs).computed(w, t, x));
            assert(rule == sum_rule(a, b, subtract, exec_flag, self.slots@[i as int]));
        }
        (result, overflow)
    }
}

/// Both carries are zero or one.
pub open spec fn slot_is_boolean(
    carry: Boolean,
    overflow: Boolean,
    w: spec_fn(Variable) -> int,
) -> bool {
    &&& field::residue(carry.value(w) * (carry.value(w) - 1)) == 0
    &&& field::residue(overflow.value(w) * (overflow.value(w) - 1)) == 0
}

/// The slot that a circuit with `start` variables allocates next.
pub open spec fn fresh_slot(start: int, relations: Seq<AddRelation>, slot: AddSlot) -> bool {
    &&& slot.result.low == Variable(start as usize)
    &&& slot.result.high == Variable((start + 1) as usize)
    &&& slot.carry == Boolean::Is(Variable((start + 2) as usize))
    &&& slot.overflow == Boolean::Is(Variable((start + 3) as usize))
    &&& slot.relations@ == relations
}

/// The relation `result = a + b`, or `result = a - b` written as `b + result = a`.
pub open spec fn relation_of(
    a: Register,
    b: Register,
    subtract: bool,
    result: Register,
    exec_flag: Boolean,
) -> AddRelation {
    if subtract {
        AddRelation { x: b, y: result, z: a, exec_flag }
    } else {
        AddRelation { x: a, y: b, z: result, exec_flag }
    }
}

/// How the result and the carries of a slot are computed where a relation is active.
pub open spec fn sum_rule(
    a: Register,
    b: Register,
    subtract: bool,
    exec_flag: Boolean,
    slot: AddSlot,
) -> SumRule {
    SumRule {
        a,
        b,
        subtract,
        exec_flag,
        result: slot.result,
        carry: slot.carry,
        overflow: slot.overflow,
    }
}

/// Whether a circuit has one rule more: that of a sum.
pub open spec fn sum_is_recorded(
    before: BasicAssembly,
    after: BasicAssembly,
    rule: SumRule,
) -> bool {
    &&& after.rules() == before.rules().push(WitnessRule::Sum(rule))
    &&& forall|w: spec_fn(Variable) -> int, t: TableContents, x: OutsideValues| #[trigger]
        after.computed(w, t, x) <==> before.computed(w, t, x) && (rule.exec_flag.value(w) == 1
            ==> rule.is_computed(w))
}

/// What appending a relation does to the context and to the circuit.
pub open spec fn is_appended(
    before: OptimizationContext,
    after: OptimizationContext,
    cs_before: BasicAssembly,
    cs_after: BasicAssembly,
    a: Register,
    b: Register,
    subtract: bool,
    exec_flag: Boolean,
    result: (Register, Boolean),
) -> bool {
    let i = before.next_slot();
    let added = relation_of(a, b, subtract, result.0, exec_flag);
    &&& 0 <= i < after.slots().len()
    &&& after.next_slot() == i + 1
    &&& after.slots()[i].result == result.0
    &&& after.slots()[i].overflow == result.1
    &&& sum_is_recorded(
        cs_before,
        cs_after,
        sum_rule(a, b, subtract, exec_flag, after.slots()[i]),
    )
    &&& if i < before.slots().len() {
        &&& after.slots().len() == before.slots().len()
        &&& forall|k: int|
            0 <= k < before.slots().len() && k != i ==> after.slots()[k]
                == #[trigger] before.slots()[k]
        &&& after.slots()[i].result == before.slots()[i].result
        &&& after.slots()[i].carry == before.slots()[i].carry
        &&& after.slots()[i].overflow == before.slots()[i].overflow
        &&& after.slots()[i].relations@ == before.slots()[i].relations@.push(added)
        &&& cs_after.next() == cs_before.next()
        &&& forall|w: spec_fn(Variable) -> int, t: TableContents| #[trigger]
            cs_after.satisfied(w, t) <==> cs_before.satisfied(w, t)
    } else {
        &&& i == before.slots().len()
        &&& after.slots().len() == i + 1
        &&& forall|k: int| 0 <= k < i ==> after.slots()[k] == #[trigger] before.slots()[k]
        &&& fresh_slot(cs_before.next(), seq![added], after.slots()[i])
        &&& cs_after.next() == cs_before.next() + 4
        &&& forall|w: spec_fn(Variable) -> int, t: TableContents| #[trigger]
            cs_after.satisfied(w, t) <==> cs_before.satisfied(w, t) && slot_is_boolean(
                after.slots()[i].carry,
                after.slots()[i].overflow,
                w,
            )
    }
}

/// The deviation of a relation in one limb as a polynomial:
/// `flag * (x + y + carry_in - z - 2^16 * carry_out)`.
fn deviation(
    exec_flag: Boolean,
    x: Variable,
    y: Variable,
    carry_in: Boolean,
    z: Variable,
    carry_out: Boolean,
) -> (r: Constraint)
    ensures
        forall|w: spec_fn(Variable) -> int| #[trigger]
            r.value(w) == field::residue(
                exec_flag.value(w) * (w(x) + w(y) + carry_in.value(w) - w(z) - 0x1_0000
                    * carry_out.value(w)),
            ),
{
    let e1 = Constraint::weighted(x, 1).plus(&Constraint::weighted(y, 1));
    let e2 = e1.plus(&Constraint::weighted_boolean(carry_in, 1));
    let e3 = e2.minus(&Constraint::weighted(z, 1));
    let e4 = e3.minus(&Constraint::weighted_boolean(carry_out, 0x1_0000));
    let flag = Constraint::weighted_boolean(exec_flag, 1);
    let r = flag.times(&e4);
    proof {
        assert forall|w: spec_fn(Variable) -> int| #[trigger]
            r.value(w) == field::residue(
                exec_flag.value(w) * (w(x) + w(y) + carry_in.value(w) - w(z) - 0x1_0000
                    * carry_out.value(w)),
            ) by {
            let (a, b, c, d) = (w(x), w(y), carry_in.value(w), w(z));
            let o = 0x1_0000 * carry_out.value(w);
            let f = exec_flag.value(w);
            assert(1 * a == a && 1 * b == b && 1 * c == c && 1 * d == d && 1 * f == f);
            expression::lemma_combine(a, b);
            assert(e1.value(w) == field::residue(a + b));
            expression::lemma_combine(a + b, c);
            assert(e2.value(w) == field::residue(a + b + c));
            expression::lemma_combine(a + b + c, d);
            assert(e3.value(w) == field::residue(a + b + c - d));
            expression::lemma_combine(a + b + c - d, o);
            assert(e4.value(w) == field::residue(a + b + c - d - o));
            expression::lemma_combine(f, a + b + c - d - o);
        }
    }
    r
}

impl AddSlot {
    /// The merged constraints of the slot: both limbs of the sum, and the width of the result.
    fn enforce(&self, cs: &mut BasicAssembly)
        ensures
            final(cs).next() == old(cs).next(),
            final(cs).rules() == old(cs).rules(),
            forall|w: spec_fn(Variable) -> int, t: TableContents| #[trigger]
                final(cs).satisfied(w, t) <==> old(cs).satisfied(w, t) && self.demands(w),
    {
        cs.require_invariant(self.result.low, 16);
        let ghost c1 = *cs;
        cs.require_invariant(self.result.high, 16);
        let ghost c2 = *cs;
        let mut low = Constraint::empty();
        let mut high = Constraint::empty();
        let mut i: usize = 0;
        while i < self.relations.len()
            invariant
                i <= self.relations@.len(),
                forall|w: spec_fn(Variable) -> int| #[trigger]
                    low.value(w) == field::residue(
                        low_deviations(self.relations@.take(i as int), self.carry, w),
                    ),
                forall|w: spec_fn(Variable) -> int| #[trigger]
                    high.value(w) == field::residue(
                        high_deviations(
                            self.relations@.take(i as int),
                            self.carry,
                            self.overflow,
                            w,
                        ),
                    ),
            decreases self.relations@.len() - i,
        {
            let r = self.relations[i];
            let low_part = deviation(
                r.exec_flag,
                r.x.low,
                r.y.low,
                Boolean::Constant(false),
                r.z.low,
                self.carry,
            );
            let high_part = deviation(
                r.exec_flag,
                r.x.high,
                r.y.high,
                self.carry,
                r.z.high,
                self.overflow,
            );
            let ghost (low_before, high_before) = (low, high);
            low = low.plus(&low_part);
            high = high.plus(&high_part);
            proof {
                let shorter = self.relations@.take(i as int);
                assert(self.relations@.take(i + 1).drop_last() =~= shorter);
                assert forall|w: spec_fn(Variable) -> int| #[trigger]
                    low.value(w) == field::residue(
                        low_deviations(self.relations@.take(i + 1), self.carry, w),
                    ) by {
                    assert(low_before.value(w) == field::residue(
                        low_deviations(shorter, self.carry, w),
                    ));
                    expression::lemma_combine(
                        low_deviations(shorter, self.carry, w),
                        low_deviation(r, self.carry, w),
                    );
                }
                assert forall|w: spec_fn(Variable) -> int| #[trigger]
                    high.value(w) == field::residue(
                        high_deviations(
                            self.relations@.take(i + 1),
                            self.carry,
                            self.overflow,
                            w,
                        ),
                    ) by {
                    assert(high_before.value(w) == field::residue(
                        high_deviations(shorter, self.carry, self.overflow, w),
                    ));
                    expression::lemma_combine(
                        high_deviations(shorter, self.carry, self.overflow, w),
                        high_deviation(r, self.carry, self.overflow, w),
                    );
                }
            }
            i = i + 1;
        }
        assert(self.relations@.take(i as int) =~= self.relations@);
        cs.add_constraint(low);
        let ghost c3 = *cs;
        cs.add_constraint(high);
        proof {
            assert forall|w: spec_fn(Variable) -> int, t: TableContents| #[trigger]
                cs.satisfied(w, t) <==> old(cs).satisfied(w, t) && self.demands(w) by {
                assert(cs.satisfied(w, t) <==> c3.satisfied(w, t) && high.value(w) == 0);
                assert(c3.satisfied(w, t) <==> c2.satisfied(w, t) && low.value(w) == 0);
                assert(c2.satisfied(w, t) <==> c1.satisfied(w, t) && 0 <= w(self.result.high)
                    < power2::pow2(16));
            }
        }
    }
}

impl OptimizationContext {
    /// The sum of two registers, to be `a + b` modulo `2^32` where `exec_flag` is set; and whether
    /// it overflows.
    pub fn append_add_relation(
        &mut self,
        a: Register,
        b: Register,
        exec_flag: Boolean,
        cs: &mut BasicAssembly,
    ) -> (r: (Register, Boolean))
        requires
            old(self).well_formed(),
            old(cs).next() + 4 <= usize::MAX,
        ensures
            final(self).well_formed(),
            is_appended(*old(self), *final(self), *old(cs), *final(cs), a, b, false, exec_flag, r),
    {
        self.append(a, b, false, exec_flag, cs)
    }

    /// The difference of two registers, to be `a - b` modulo `2^32` where `exec_flag` is set; and
    /// whether it underflows.
    pub fn append_sub_relation(
        &mut self,
        a: Register,
        b: Register,
        exec_flag: Boolean,
        cs: &mut BasicAssembly,
    ) -> (r: (Register, Boolean))
        requires
            old(self).well_formed(),
            old(cs).next() + 4 <= usize::MAX,
        ensures
            final(self).well_formed(),
            is_appended(*old(self), *final(self), *old(cs), *final(cs), a, b, true, exec_flag, r),
    {
        self.append(a, b, true, exec_flag, cs)
    }

    /// Turns all collected relations into constraints.
    pub fn enforce_all(&self, cs: &mut BasicAssembly)
        ensures
            final(cs).next() == old(cs).next(),
            final(cs).rules() == old(cs).rules(),
            forall|w: spec_fn(Variable) -> int, t: TableContents| #[trigger]
                final(cs).satisfied(w, t) <==> old(cs).satisfied(w, t) && (forall|i: int|
                    0 <= i < self.slots().len() ==> (#[trigger] self.slots()[i]).demands(w)),
    {
        let mut i: usize = 0;
        while i < self.slots.len()
            invariant
                i <= self.slots@.len(),
                cs.next() == old(cs).next(),
                cs.rules() == old(cs).rules(),
                forall|w: spec_fn(Variable) -> int, t: TableContents| #[trigger]
                    cs.satisfied(w, t) <==> old(cs).satisfied(w, t) && (forall|k: int|
                        0 <= k < i ==> (#[trigger] self.slots()[k]).demands(w)),
            decreases self.slots@.len() - i,
        {
            let ghost before = *cs;
            self.slots[i].enforce(cs);
            proof {
                assert forall|w: spec_fn(Variable) -> int, t: TableContents| #[trigger]
                    cs.satisfied(w, t) <==> old(cs).satisfied(w, t) && (forall|k: int|
                        0 <= k < i + 1 ==> (#[trigger] self.slots()[k]).demands(w)) by {
                    assert(cs.satisfied(w, t) <==> before.satisfied(w, t) && self.slots()[i as int].demands(
                        w,
                    ));
                }
            }
            i = i + 1;
        }
    }
}

/// Exactly the relation at `active` has its flag set.
pub open spec fn is_active(
    relations: Seq<AddRelation>,
    active: int,
    w: spec_fn(Variable) -> int,
) -> bool {
    forall|i: int|
        0 <= i < relations.len() ==> (#[trigger] relations[i]).exec_flag.value(w) == if i == active {
            1int
        } else {
            0
        }
}

proof fn lemma_active_deviation(
    relations: Seq<AddRelation>,
    active: int,
    carry: Boolean,
    overflow: Boolean,
    w: spec_fn(Variable) -> int,
)
    requires
        is_active(relations, active, w),
    ensures
        low_deviations(relations, carry, w) == if 0 <= active < relations.len() {
            low_deviation(relations[active], carry, w)
        } else {
            0
        },
        high_deviations(relations, carry, overflow, w) == if 0 <= active < relations.len() {
            high_deviation(relations[active], carry, overflow, w)
        } else {
            0
        },
    decreases relations.len(),
{
    if relations.len() > 0 {
        let shorter = relations.drop_last();
        assert forall|i: int| 0 <= i < shorter.len() implies (
        #[trigger] shorter[i]).exec_flag.value(w) == if i == active {
            1int
        } else {
            0
        } by {
            assert(shorter[i] == relations[i]);
        }
        lemma_active_deviation(shorter, active, carry, overflow, w);
        let r = relations.last();
        assert(r == relations[relations.len() - 1]);
        if active != relations.len() - 1 {
            assert(r.exec_flag.value(w) == 0);
            assert(low_deviation(r, carry, w) == 0) by (nonlinear_arith)
                requires
                    r.exec_flag.value(w) == 0,
            ;
            assert(high_deviation(r, carry, overflow, w) == 0) by (nonlinear_arith)
                requires
                    r.exec_flag.value(w) == 0,
            ;
        }
    }
}

/// The active relation of a slot holds of the 32-bit values.
pub proof fn law_active_relation_holds(
    slot: AddSlot,
    active: int,
    w: spec_fn(Variable) -> int,
)
    requires
        forall|v: Variable| 0 <= #[trigger] w(v) < 0x7fff_ffff,
        0 <= active < slot.relations@.len(),
        is_active(slot.relations@, active, w),
        slot.carry is Is,
        slot.overflow is Is,
        slot_is_boolean(slot.carry, slot.overflow, w),
        slot.demands(w),
        slot.relations@[active].x.in_range(w),
        slot.relations@[active].y.in_range(w),
        slot.relations@[active].z.in_range(w),
    ensures
        ({
            let r = slot.relations@[active];
            &&& r.x.value(w) + r.y.value(w) == r.z.value(w) + 0x1_0000_0000 * slot.overflow.value(w)
            &&& slot.overflow.value(w) == 0 || slot.overflow.value(w) == 1
        }),
{
    let r = slot.relations@[active];
    lemma_active_deviation(slot.relations@, active, slot.carry, slot.overflow, w);
    prime::lemma_boolean(slot.carry.value(w));
    prime::lemma_boolean(slot.overflow.value(w));
    let (k, o) = (slot.carry.value(w), slot.overflow.value(w));
    assert(r.exec_flag.value(w) == 1);
    let low = w(r.x.low) + w(r.y.low) - w(r.z.low) - 0x1_0000 * k;
    let high = w(r.x.high) + w(r.y.high) + k - w(r.z.high) - 0x1_0000 * o;
    assert(low_deviation(r, slot.carry, w) == 1 * low);
    assert(high_deviation(r, slot.carry, slot.overflow, w) == 1 * high);
    assert(-0x3_0000 < low < 0x3_0000 && -0x3_0000 < high < 0x3_0000);
    assert(low == 0 && high == 0);
}

/// An active addition yields what the ADD instruction computes, and an active subtraction what SUB
/// computes.
pub proof fn law_add_and_sub_are_wrapping(
    slot: AddSlot,
    active: int,
    a: Register,
    b: Register,
    subtract: bool,
    w: spec_fn(Variable) -> int,
)
    requires
        forall|v: Variable| 0 <= #[trigger] w(v) < 0x7fff_ffff,
        0 <= active < slot.relations@.len(),
        is_active(slot.relations@, active, w),
        slot.carry is Is,
        slot.overflow is Is,
        slot_is_boolean(slot.carry, slot.overflow, w),
        slot.demands(w),
        a.in_range(w),
        b.in_range(w),
        slot.relations@[active] == relation_of(
            a,
            b,
            subtract,
            slot.result,
            slot.relations@[active].exec_flag,
        ),
    ensures
        slot.result.in_range(w),
        slot.result.value(w) == bits::wrap32(
            if subtract {
                a.value(w) - b.value(w)
            } else {
                a.value(w) + b.value(w)
            },
        ),
{
    power2::lemma2_to64();
    law_active_relation_holds(slot, active, w);
}

/// Where the program goes next.
pub enum NextPcValue {
    Default,
    Custom(Register),
}

/// A candidate for the destination register, to be taken where `flag` is set.
pub struct RdCandidate {
    pub low: Constraint,
    pub high: Constraint,
    pub flag: Boolean,
}

/// What a family contributes to a cycle, to be taken where its flag is set.
pub struct CommonDiffs {
    pub exec_flag: Boolean,
    pub rd_value: Vec<RdCandidate>,
    pub new_pc_value: NextPcValue,
}

/// A register value that was cut up, with its sign.
#[derive(Clone, Copy, Debug)]
pub struct RegisterDecompositionWithSign {
    pub register: Register,
    pub sign_bit: Boolean,
}

impl RegisterDecompositionWithSign {
    pub fn get_register(&self) -> (r: Register)
        ensures
            r == self.register,
    {
        self.register
    }
}

/// A family that the opcode table assigns instructions to.
pub trait DecodableMachineOp {
    /// Which instructions belong to the family, in which format and variants.
    spec fn subspace(&self, opcode: u8, func3: u8, func7: u8) -> Option<
        (InstructionType, DecoderMajorInstructionFamilyKey, Seq<DecoderInstructionVariantsKey>),
    >;

    fn define_decoder_subspace(&self, opcode: u8, func3: u8, func7: u8) -> (r: Result<
        (InstructionType, DecoderMajorInstructionFamilyKey, Vec<DecoderInstructionVariantsKey>),
        (),
    >)
        ensures
            match self.subspace(opcode, func3, func7) {
                None => r is Err,
                Some((format, key, variants)) => {
                    &&& r is Ok
                    &&& r->Ok_0.0 == format
                    &&& r->Ok_0.1 == key
                    &&& r->Ok_0.2@ == variants
                },
            },
    ;
}

/// ADD and ADDI, which differ only in where the second operand comes from.
#[derive(Clone, Copy, PartialEq, Eq, Structural, Debug)]
pub struct AddOp;

/// SUB.
#[derive(Clone, Copy, PartialEq, Eq, Structural, Debug)]
pub struct SubOp;

impl DecodableMachineOp for AddOp {
    open spec fn subspace(&self, opcode: u8, func3: u8, func7: u8) -> Option<
        (InstructionType, DecoderMajorInstructionFamilyKey, Seq<DecoderInstructionVariantsKey>),
    > {
        if opcode == OP_SUBMASK && func3 == 0 && func7 == 0 {
            Some((InstructionType::RType, ADD_OP_KEY, seq![]))
        } else if opcode == OP_IMM_SUBMASK && func3 == 0 {
            Some((InstructionType::IType, ADD_OP_KEY, seq![]))
        } else {
            None
        }
    }

    fn define_decoder_subspace(&self, opcode: u8, func3: u8, func7: u8) -> (r: Result<
        (InstructionType, DecoderMajorInstructionFamilyKey, Vec<DecoderInstructionVariantsKey>),
        (),
    >) {
        if opcode == OP_SUBMASK && func3 == 0 && func7 == 0 {
            Ok((InstructionType::RType, ADD_OP_KEY, Vec::new()))
        } else if opcode == OP_IMM_SUBMASK && func3 == 0 {
            Ok((InstructionType::IType, ADD_OP_KEY, Vec::new()))
        } else {
            Err(())
        }
    }
}

impl DecodableMachineOp for SubOp {
    open spec fn subspace(&self, opcode: u8, func3: u8, func7: u8) -> Option<
        (InstructionType, DecoderMajorInstructionFamilyKey, Seq<DecoderInstructionVariantsKey>),
    > {
        if opcode == OP_SUBMASK && func3 == 0 && func7 == 0b0100000 {
            Some((InstructionType::RType, SUB_OP_KEY, seq![]))
        } else {
            None
        }
    }

    fn define_decoder_subspace(&self, opcode: u8, func3: u8, func7: u8) -> (r: Result<
        (InstructionType, DecoderMajorInstructionFamilyKey, Vec<DecoderInstructionVariantsKey>),
        (),
    >) {
        if opcode == OP_SUBMASK && func3 == 0 && func7 == 0b0100000 {
            Ok((InstructionType::RType, SUB_OP_KEY, Vec::new()))
        } else {
            Err(())
        }
    }
}

/// The outcome of an arithmetic family: one candidate for the destination register, and the
/// default next instruction.
pub open spec fn is_arithmetic_outcome(
    diffs: CommonDiffs,
    exec_flag: Boolean,
    result: Register,
) -> bool {
    &&& diffs.exec_flag == exec_flag
    &&& diffs.new_pc_value is Default
    &&& diffs.rd_value@.len() == 1
    &&& diffs.rd_value@[0].flag == exec_flag
    &&& diffs.rd_value@[0].low.is_linear()
    &&& diffs.rd_value@[0].high.is_linear()
    &&& forall|w: spec_fn(Variable) -> int| #[trigger]
        diffs.rd_value@[0].low.value(w) == field::residue(w(result.low))
    &&& forall|w: spec_fn(Variable) -> int| #[trigger]
        diffs.rd_value@[0].high.value(w) == field::residue(w(result.high))
}

fn arithmetic_outcome(exec_flag: Boolean, result: Register) -> (r: CommonDiffs)
    ensures
        is_arithmetic_outcome(r, exec_flag, result),
{
    let low = Constraint::weighted(result.low, 1);
    let high = Constraint::weighted(result.high, 1);
    proof {
        assert forall|w: spec_fn(Variable) -> int| #[trigger]
            low.value(w) == field::residue(w(result.low)) by {
            assert(1 * w(result.low) == w(result.low));
        }
        assert forall|w: spec_fn(Variable) -> int| #[trigger]
            high.value(w) == field::residue(w(result.high)) by {
            assert(1 * w(result.high) == w(result.high));
        }
    }
    let mut rd_value: Vec<RdCandidate> = Vec::new();
    rd_value.push(RdCandidate { low, high, flag: exec_flag });
    CommonDiffs { exec_flag, rd_value, new_pc_value: NextPcValue::Default }
}

impl AddOp {
    /// Registers the sum of the two operands, to hold where the instruction is an addition, as the
    /// candidate for the destination register.
    pub fn apply(
        cs: &mut BasicAssembly,
        src1: &RegisterDecompositionWithSign,
        src2: &RegisterDecompositionWithSign,
        boolean_set: &BasicFlagsSource,
        opt_ctx: &mut OptimizationContext,
    ) -> (r: CommonDiffs)
        requires
            boolean_set.keys().major_keys@.contains(ADD_OP_KEY),
            old(cs).next() + 4 <= usize::MAX,
        ensures
            final(opt_ctx).well_formed(),
            is_applied(
                *old(opt_ctx),
                *final(opt_ctx),
                *old(cs),
                *final(cs),
                src1.register,
                src2.register,
                false,
                boolean_set.values()[flags::index_of(boolean_set.keys().major_keys@, ADD_OP_KEY)],
                r,
            ),
    {
        opt_ctx.reset_indexers();
        let ghost before = *opt_ctx;
        let exec_flag = boolean_set.get_major_flag(ADD_OP_KEY);
        let (res, of_flag) = opt_ctx.append_add_relation(
            src1.get_register(),
            src2.get_register(),
            exec_flag,
            cs,
        );
        assert(before.slots() == old(opt_ctx).slots());
        arithmetic_outcome(exec_flag, res)
    }
}

impl SubOp {
    /// Registers the difference of the two operands, to hold where the instruction is a
    /// subtraction, as the candidate for the destination register.
    pub fn apply(
        cs: &mut BasicAssembly,
        src1: &RegisterDecompositionWithSign,
        src2: &RegisterDecompositionWithSign,
        boolean_set: &BasicFlagsSource,
        opt_ctx: &mut OptimizationContext,
    ) -> (r: CommonDiffs)
        requires
            boolean_set.keys().major_keys@.contains(SUB_OP_KEY),
            old(cs).next() + 4 <= usize::MAX,
        ensures
            final(opt_ctx).well_formed(),
            is_applied(
                *old(opt_ctx),
                *final(opt_ctx),
                *old(cs),
                *final(cs),
                src1.register,
                src2.register,
                true,
                boolean_set.values()[flags::index_of(boolean_set.keys().major_keys@, SUB_OP_KEY)],
                r,
            ),
    {
        opt_ctx.reset_indexers();
        let ghost before = *opt_ctx;
        let exec_flag = boolean_set.get_major_flag(SUB_OP_KEY);
        let (res, uf_flag) = opt_ctx.append_sub_relation(
            src1.get_register(),
            src2.get_register(),
            exec_flag,
            cs,
        );
        assert(before.slots() == old(opt_ctx).slots());
        arithmetic_outcome(exec_flag, res)
    }
}

/// What applying an arithmetic family does: its relation goes into the first slot, and the result
/// of that slot is the candidate for the destination register.
pub open spec fn is_applied(
    before: OptimizationContext,
    after: OptimizationContext,
    cs_before: BasicAssembly,
    cs_after: BasicAssembly,
    a: Register,
    b: Register,
    subtract: bool,
    exec_flag: Boolean,
    diffs: CommonDiffs,
) -> bool {
    let slots = before.slots();
    &&& after.slots().len() > 0
    &&& after.next_slot() == 1
    &&& sum_is_recorded(
        cs_before,
        cs_after,
        sum_rule(a, b, subtract, exec_flag, after.slots()[0]),
    )
    &&& is_arithmetic_outcome(diffs, exec_flag, after.slots()[0].result)
    &&& if slots.len() > 0 {
        &&& after.slots().len() == slots.len()
        &&& forall|k: int| 1 <= k < slots.len() ==> after.slots()[k] == #[trigger] slots[k]
        &&& after.slots()[0].result == slots[0].result
        &&& after.slots()[0].carry == slots[0].carry
        &&& after.slots()[0].overflow == slots[0].overflow
        &&& after.slots()[0].relations@ == slots[0].relations@.push(
            relation_of(a, b, subtract, slots[0].result, exec_flag),
        )
        &&& cs_after.next() == cs_before.next()
        &&& forall|w: spec_fn(Variable) -> int, t: TableContents| #[trigger]
            cs_after.satisfied(w, t) <==> cs_before.satisfied(w, t)
    } else {
        &&& after.slots().len() == 1
        &&& fresh_slot(
            cs_before.next(),
            seq![relation_of(a, b, subtract, after.slots()[0].result, exec_flag)],
            after.slots()[0],
        )
        &&& cs_after.next() == cs_before.next() + 4
        &&& forall|w: spec_fn(Variable) -> int, t: TableContents| #[trigger]
            cs_after.satisfied(w, t) <==> cs_before.satisfied(w, t) && slot_is_boolean(
                after.slots()[0].carry,
                after.slots()[0].overflow,
                w,
            )
    }
}

/// Of the instructions, addition claims ADD in the R format and ADDI in the I format, and
/// subtraction claims SUB in the R format. Neither has variants, and both claim nothing else.
pub proof fn law_claims_of_arithmetic(opcode: u8, func3: u8, func7: u8)
    ensures
        match AddOp.subspace(opcode, func3, func7) {
            None => func3 != 0 || !(opcode == 0x13 || (opcode == 0x33 && func7 == 0)),
            Some((format, key, variants)) => {
                &&& func3 == 0
                &&& opcode == 0x13 || (opcode == 0x33 && func7 == 0)
                &&& opcode == 0x33 ==> format == InstructionType::RType
                &&& opcode == 0x13 ==> format == InstructionType::IType
                &&& key == DecoderMajorInstructionFamilyKey::Add
                &&& variants.len() == 0
            },
        },
        match SubOp.subspace(opcode, func3, func7) {
            None => !(opcode == 0x33 && func3 == 0 && func7 == 0x20),
            Some((format, key, variants)) => {
                &&& opcode == 0x33 && func3 == 0 && func7 == 0x20
                &&& format == InstructionType::RType
                &&& key == DecoderMajorInstructionFamilyKey::Sub
                &&& variants.len() == 0
            },
        },
{
}

} // verus!
