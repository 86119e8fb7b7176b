//! Binding the accesses of a row to the registers that its instruction names.
use crate::circuit::assembly::{BasicAssembly, OutsideValues, TableContents};
use crate::circuit::decoder::FormatBits;
use crate::circuit::expression;
use crate::circuit::expression::{Boolean, Constraint, Register, Variable};
use crate::circuit::row;
use crate::circuit::row::{equality_flag, one};
use crate::circuit::selection;
use crate::circuit::selection::update_rd_expression;
use crate::circuit::state_transition;
use crate::circuit::state_transition::{ShuffleRamMemQuery, ShuffleRamQueryType};
use crate::field;
use crate::prime;
use vstd::prelude::*;

verus! {

impl ShuffleRamMemQuery {
    /// The flag of the access going to a register.
    pub open spec fn register_flag(self) -> Boolean {
        match self.query_type {
            ShuffleRamQueryType::RegisterOnly { register_index: _ } => Boolean::Constant(true),
            ShuffleRamQueryType::RegisterOrRam { is_register, address: _ } => is_register,
        }
    }

    /// The access, which goes to memory where `flag` is set.
    pub open spec fn in_memory_where(self, flag: Boolean) -> ShuffleRamMemQuery {
        match self.query_type {
            ShuffleRamQueryType::RegisterOnly { register_index: _ } => self,
            ShuffleRamQueryType::RegisterOrRam { is_register: _, address } => ShuffleRamMemQuery {
                query_type: ShuffleRamQueryType::RegisterOrRam {
                    is_register: flag.negation(),
                    address,
                },
                ..self
            },
        }
    }

    /// Makes the access one of memory where `flag` is set.
    pub fn use_memory_where(self, flag: Boolean) -> (r: ShuffleRamMemQuery)
        ensures
            r == self.in_memory_where(flag),
    {
        match self.query_type {
            ShuffleRamQueryType::RegisterOnly { register_index: _ } => self,
            ShuffleRamQueryType::RegisterOrRam { is_register: _, address } => ShuffleRamMemQuery {
                query_type: ShuffleRamQueryType::RegisterOrRam {
                    is_register: flag.toggle(),
                    address,
                },
                local_timestamp_in_cycle: self.local_timestamp_in_cycle,
                read_value: self.read_value,
                write_value: self.write_value,
            },
        }
    }

    /// Whether the access goes to the register `index`.
    pub open spec fn goes_to_register(self, index: int, w: spec_fn(Variable) -> int) -> bool {
        match self.query_type {
            ShuffleRamQueryType::RegisterOnly { register_index } => w(register_index) == index,
            ShuffleRamQueryType::RegisterOrRam { is_register, address } => {
                &&& is_register.value(w) == 1
                &&& w(address.low) == index
                &&& w(address.high) == 0
            },
        }
    }
}

/// Whether a variable has a value, unless a flag is zero.
pub open spec fn is_bound(
    flag: Boolean,
    v: Variable,
    value: int,
    w: spec_fn(Variable) -> int,
) -> bool {
    field::residue(flag.value(w) * (w(v) - value)) == 0
}

/// Demands that a variable equals a linear polynomial, unless a flag is zero.
fn bind(cs: &mut BasicAssembly, flag: Boolean, v: Variable, target: Constraint)
    requires
        target.is_linear(),
    ensures
        final(cs).next() == old(cs).next(),
        final(cs).rules() == old(cs).rules(),
        forall|w: spec_fn(Variable) -> int, t: TableContents| #[trigger]
            final(cs).satisfied(w, t) <==> old(cs).satisfied(w, t) && is_bound(
                flag,
                v,
                target.value(w),
                w,
            ),
{
    let factor = Constraint::weighted_boolean(flag, 1);
    let difference = one(v).minus(&target);
    let product = factor.times(&difference);
    proof {
        assert forall|w: spec_fn(Variable) -> int| #[trigger]
            product.value(w) == field::residue(flag.value(w) * (w(v) - target.value(w))) by {
            let (f, x, y) = (flag.value(w), w(v), target.value(w));
            assert(1 * f == f);
            expression::lemma_combine(x, y);
            expression::lemma_combine(f, x - y);
            field::lemma_residue_absorb(x, -y);
            assert(difference.value(w) == field::residue(x - y));
        }
    }
    cs.add_constraint(product);
}

/// What binding the address of an access to a register demands: where it goes to a register, it
/// goes to the register `index`.
pub open spec fn address_demands(
    query: ShuffleRamMemQuery,
    index: int,
    w: spec_fn(Variable) -> int,
) -> bool {
    match query.query_type {
        ShuffleRamQueryType::RegisterOnly { register_index } => is_bound(
            Boolean::Constant(true),
            register_index,
            index,
            w,
        ),
        ShuffleRamQueryType::RegisterOrRam { is_register, address } => {
            &&& is_bound(is_register, address.low, index, w)
            &&& is_bound(is_register, address.high, 0, w)
        },
    }
}

/// Binds the address of an access to the register with the number `index`.
fn bind_address(cs: &mut BasicAssembly, query: &ShuffleRamMemQuery, index: Constraint)
    requires
        index.is_linear(),
    ensures
        final(cs).next() == old(cs).next(),
        final(cs).rules() == old(cs).rules(),
        forall|w: spec_fn(Variable) -> int, t: TableContents| #[trigger]
            final(cs).satisfied(w, t) <==> old(cs).satisfied(w, t) && address_demands(
                *query,
                index.value(w),
                w,
            ),
{
    match query.query_type {
        ShuffleRamQueryType::RegisterOnly { register_index } => {
            bind(cs, Boolean::Constant(true), register_index, index);
        },
        ShuffleRamQueryType::RegisterOrRam { is_register, address } => {
            bind(cs, is_register, address.low, index);
            let ghost middle = *cs;
            let zero = Constraint::constant(0);
            bind(cs, is_register, address.high, zero);
            proof {
                assert forall|w: spec_fn(Variable) -> int, t: TableContents| #[trigger]
                    cs.satisfied(w, t) <==> old(cs).satisfied(w, t) && address_demands(
                        *query,
                        index.value(w),
                        w,
                    ) by {
                    assert(middle.satisfied(w, t) <==> old(cs).satisfied(w, t) && is_bound(
                        is_register,
                        address.low,
                        index.value(w),
                        w,
                    ));
                    field::lemma_residue_small(0);
                    assert(zero.value(w) == 0);
                }
            }
        },
    }
}

/// What binding the accesses of a row demands, with variables from `start` on: the number of the
/// register that is written, which is zero where the format writes none; whether that is zero; and
/// the value that is written, which is zero for the register zero. Where the second access goes to
/// a register it goes to `rs2`, and where the third one does it writes that value to that register.
pub open spec fn slot_demands(
    start: int,
    formats: FormatBits<Boolean>,
    rd: Constraint,
    rs2: Constraint,
    rs2_query: ShuffleRamMemQuery,
    rd_query: ShuffleRamMemQuery,
    selected: Register,
    w: spec_fn(Variable) -> int,
) -> bool {
    let index = Variable(start as usize);
    let is_zero = w(Variable((start + 1) as usize));
    let written = state_transition::register_at(start + 3);
    &&& field::residue(w(index)) == field::residue(
        selection::update_rd(formats, w) * rd.value(w),
    )
    &&& row::difference_demands(start + 1, index, 0, w)
    &&& field::residue(w(written.low)) == field::residue((1 - is_zero) * w(selected.low))
    &&& field::residue(w(written.high)) == field::residue((1 - is_zero) * w(selected.high))
    &&& address_demands(rs2_query, rs2.value(w), w)
    &&& address_demands(rd_query, field::residue(w(index)), w)
    &&& is_bound(
        rd_query.register_flag(),
        rd_query.write_value.low,
        field::residue(w(written.low)),
        w,
    )
    &&& is_bound(
        rd_query.register_flag(),
        rd_query.write_value.high,
        field::residue(w(written.high)),
        w,
    )
}

/// How the variables of the binding are computed.
pub open spec fn slot_computes(
    start: int,
    formats: FormatBits<Boolean>,
    rd: Constraint,
    selected: Register,
    w: spec_fn(Variable) -> int,
) -> bool {
    let index = Variable(start as usize);
    let is_zero = w(Variable((start + 1) as usize));
    let written = state_transition::register_at(start + 3);
    &&& w(index) == field::residue(selection::update_rd(formats, w) * rd.value(w))
    &&& row::difference_computes(start + 1, index, 0, w)
    &&& w(written.low) == field::residue((1 - is_zero) * w(selected.low))
    &&& w(written.high) == field::residue((1 - is_zero) * w(selected.high))
}

/// A limb of the written value: zero where the flag is set.
fn masked_limb(cs: &mut BasicAssembly, is_zero: Boolean, limb: Variable) -> (r: Variable)
    requires
        old(cs).next() < usize::MAX,
    ensures
        r == Variable(old(cs).next() as usize),
        final(cs).next() == old(cs).next() + 1,
        forall|w: spec_fn(Variable) -> int, t: TableContents| #[trigger]
            final(cs).satisfied(w, t) <==> old(cs).satisfied(w, t) && field::residue(w(r))
                == field::residue((1 - is_zero.value(w)) * w(limb)),
        forall|w: spec_fn(Variable) -> int, t: TableContents, x: OutsideValues| #[trigger]
            final(cs).computed(w, t, x) <==> old(cs).computed(w, t, x) && w(r) == field::residue(
                (1 - is_zero.value(w)) * w(limb),
            ),
{
    let factor = Constraint::weighted_boolean(is_zero.toggle(), 1);
    let product = factor.times(&one(limb));
    proof {
        assert forall|w: spec_fn(Variable) -> int| #[trigger]
            product.value(w) == field::residue((1 - is_zero.value(w)) * w(limb)) by {
            let f = 1 - is_zero.value(w);
            assert(1 * f == f);
            assert(is_zero.negation().value(w) == f);
            expression::lemma_combine(f, w(limb));
        }
    }
    cs.add_variable_from_constraint(product)
}

/// The number of the register that a row writes: zero where the format writes none.
fn written_index(cs: &mut BasicAssembly, formats: &FormatBits<Boolean>, rd: &Constraint) -> (r:
    Variable)
    requires
        rd.is_linear(),
        old(cs).next() < usize::MAX,
    ensures
        r == Variable(old(cs).next() as usize),
        final(cs).next() == old(cs).next() + 1,
        forall|w: spec_fn(Variable) -> int, t: TableContents| #[trigger]
            final(cs).satisfied(w, t) <==> old(cs).satisfied(w, t) && field::residue(w(r))
                == field::residue(selection::update_rd(*formats, w) * rd.value(w)),
        forall|w: spec_fn(Variable) -> int, t: TableContents, x: OutsideValues| #[trigger]
            final(cs).computed(w, t, x) <==> old(cs).computed(w, t, x) && w(r) == field::residue(
                selection::update_rd(*formats, w) * rd.value(w),
            ),
{
    let update_rd = update_rd_expression(formats);
    let product = update_rd.times(rd);
    proof {
        assert forall|w: spec_fn(Variable) -> int| #[trigger]
            product.value(w) == field::residue(
                selection::update_rd(*formats, w) * rd.value(w),
            ) by {
            field::lemma_residue_absorb(selection::update_rd(*formats, w), rd.value(w));
        }
    }
    cs.add_variable_from_constraint(product)
}

/// Binds the accesses of a row: the second one to the register `rs2`, unless it goes to memory; the
/// third one to the destination register with the selected value, unless it goes to memory. Where
/// the format writes no register the third access writes zero to the register zero.
pub fn bind_slots(
    cs: &mut BasicAssembly,
    formats: &FormatBits<Boolean>,
    rd: &Constraint,
    rs2: &Constraint,
    rs2_query: &ShuffleRamMemQuery,
    rd_query: &ShuffleRamMemQuery,
    selected: Register,
)
    requires
        rd.is_linear(),
        rs2.is_linear(),
        old(cs).next() + 5 <= usize::MAX,
    ensures
        final(cs).next() == old(cs).next() + 5,
        forall|w: spec_fn(Variable) -> int, t: TableContents| #[trigger]
            final(cs).satisfied(w, t) <==> old(cs).satisfied(w, t) && slot_demands(
                old(cs).next(),
                *formats,
                *rd,
                *rs2,
                *rs2_query,
                *rd_query,
                selected,
                w,
            ),
        forall|w: spec_fn(Variable) -> int, t: TableContents, x: OutsideValues| #[trigger]
            final(cs).computed(w, t, x) <==> old(cs).computed(w, t, x) && slot_computes(
                old(cs).next(),
                *formats,
                *rd,
                selected,
                w,
            ),
{
    let index = written_index(cs, formats, rd);
    let ghost c1 = *cs;
    let is_zero = equality_flag(cs, index, 0);
    let ghost c2 = *cs;
    let low = masked_limb(cs, is_zero, selected.low);
    let ghost c3 = *cs;
    let high = masked_limb(cs, is_zero, selected.high);
    let ghost c4 = *cs;
    let rs2_copy = rs2.duplicate();
    bind_address(cs, rs2_query, rs2_copy);
    let ghost c5 = *cs;
    let index_target = one(index);
    bind_address(cs, rd_query, index_target);
    let ghost c6 = *cs;
    let flag = match rd_query.query_type {
        ShuffleRamQueryType::RegisterOnly { register_index: _ } => Boolean::Constant(true),
        ShuffleRamQueryType::RegisterOrRam { is_register, address: _ } => is_register,
    };
    let low_target = one(low);
    bind(cs, flag, rd_query.write_value.low, low_target);
    let ghost c7 = *cs;
    let high_target = one(high);
    bind(cs, flag, rd_query.write_value.high, high_target);
    proof {
        assert forall|w: spec_fn(Variable) -> int, t: TableContents| #[trigger]
            cs.satisfied(w, t) <==> old(cs).satisfied(w, t) && slot_demands(
                old(cs).next(),
                *formats,
                *rd,
                *rs2,
                *rs2_query,
                *rd_query,
                selected,
                w,
            ) by {
            assert(c7.satisfied(w, t) <==> c6.satisfied(w, t) && is_bound(
                flag,
                rd_query.write_value.low,
                low_target.value(w),
                w,
            ));
            assert(c6.satisfied(w, t) <==> c5.satisfied(w, t) && address_demands(
                *rd_query,
                index_target.value(w),
                w,
            ));
            assert(c5.satisfied(w, t) <==> c4.satisfied(w, t) && address_demands(
                *rs2_query,
                rs2_copy.value(w),
                w,
            ));
            assert(rs2_copy.value(w) == rs2.value(w));
            assert(c4.satisfied(w, t) <==> c3.satisfied(w, t) && field::residue(w(high))
                == field::residue((1 - is_zero.value(w)) * w(selected.high)));
            assert(c3.satisfied(w, t) <==> c2.satisfied(w, t) && field::residue(w(low))
                == field::residue((1 - is_zero.value(w)) * w(selected.low)));
            assert(c2.satisfied(w, t) <==> c1.satisfied(w, t) && row::difference_demands(
                old(cs).next() + 1,
                index,
                0,
                w,
            ));
        }
        assert forall|w: spec_fn(Variable) -> int, t: TableContents, x: OutsideValues| #[trigger]
            cs.computed(w, t, x) <==> old(cs).computed(w, t, x) && slot_computes(
                old(cs).next(),
                *formats,
                *rd,
                selected,
                w,
            ) by {
            assert(cs.computed(w, t, x) <==> c4.computed(w, t, x));
            assert(c4.computed(w, t, x) <==> c3.computed(w, t, x) && w(high) == field::residue(
                (1 - is_zero.value(w)) * w(selected.high),
            ));
            assert(c3.computed(w, t, x) <==> c2.computed(w, t, x) && w(low) == field::residue(
                (1 - is_zero.value(w)) * w(selected.low),
            ));
            assert(c2.computed(w, t, x) <==> c1.computed(w, t, x) && row::difference_computes(
                old(cs).next() + 1,
                index,
                0,
                w,
            ));
        }
    }
}

/// A bound variable has its value where the flag is set.
proof fn lemma_bound(flag: Boolean, v: Variable, value: int, w: spec_fn(Variable) -> int)
    requires
        0 <= w(v) < 0x7fff_ffff,
        0 <= value < 0x7fff_ffff,
        flag.value(w) == 1,
        is_bound(flag, v, value, w),
    ensures
        w(v) == value,
{
    let d = w(v) - value;
    assert(1 * d == d);
    assert(field::residue(d) == 0);
    assert(-0x7fff_ffff < d < 0x7fff_ffff);
}

/// A satisfied row accesses the registers that its instruction names. The second access, where it
/// goes to a register, goes to the second source register. The third one, where it goes to a
/// register, writes the selected value to the destination register; to the register zero it only
/// writes zero, and that is also what it does where the format writes no register.
pub proof fn law_slots_are_bound(
    start: int,
    formats: FormatBits<Boolean>,
    rd: Constraint,
    rs2: Constraint,
    rs2_query: ShuffleRamMemQuery,
    rd_query: ShuffleRamMemQuery,
    selected: Register,
    w: spec_fn(Variable) -> int,
)
    requires
        forall|v: Variable| 0 <= #[trigger] w(v) < 0x7fff_ffff,
        slot_demands(start, formats, rd, rs2, rs2_query, rd_query, selected, w),
        selection::update_rd(formats, w) == 0 || selection::update_rd(formats, w) == 1,
    ensures
        rs2_query.register_flag().value(w) == 1 ==> rs2_query.goes_to_register(rs2.value(w), w),
        rd_query.register_flag().value(w) == 1 ==> {
            let index = if selection::update_rd(formats, w) == 1 {
                rd.value(w)
            } else {
                0
            };
            &&& rd_query.goes_to_register(index, w)
            &&& w(rd_query.write_value.low) == if index == 0 {
                0
            } else {
                w(selected.low)
            }
            &&& w(rd_query.write_value.high) == if index == 0 {
                0
            } else {
                w(selected.high)
            }
        },
{
    if rs2_query.register_flag().value(w) == 1 {
        lemma_address(rs2_query, rs2.value(w), w);
    }
    if rd_query.register_flag().value(w) == 1 {
        let update = selection::update_rd(formats, w);
        let index = w(Variable(start as usize));
        let z = w(Variable((start + 1) as usize));
        let inverse = w(Variable((start + 2) as usize));
        let written = state_transition::register_at(start + 3);
        assert(1 * rd.value(w) == rd.value(w) && 0 * rd.value(w) == 0);
        assert(0 <= rd.value(w) < 0x7fff_ffff);
        field::lemma_residue_small(index);
        assert(index == update * rd.value(w));
        prime::lemma_boolean(z);
        assert(z == 1 <==> index == 0) by {
            assert(0 * inverse == 0 && index * 1 == index);
            if index == 0 {
                assert(field::residue(z - 1) == 0);
            } else if z == 1 {
                assert(field::residue(index * z) == index);
            }
        }
        lemma_address(rd_query, index, w);
        assert(0 * w(selected.low) == 0 && 1 * w(selected.low) == w(selected.low));
        assert(0 * w(selected.high) == 0 && 1 * w(selected.high) == w(selected.high));
        assert(0 <= w(written.low) < 0x7fff_ffff && 0 <= w(written.high) < 0x7fff_ffff);
        assert(0 <= w(selected.low) < 0x7fff_ffff && 0 <= w(selected.high) < 0x7fff_ffff);
        lemma_bound(rd_query.register_flag(), rd_query.write_value.low, w(written.low), w);
        lemma_bound(rd_query.register_flag(), rd_query.write_value.high, w(written.high), w);
    }
}

proof fn lemma_address(query: ShuffleRamMemQuery, index: int, w: spec_fn(Variable) -> int)
    requires
        forall|v: Variable| 0 <= #[trigger] w(v) < 0x7fff_ffff,
        0 <= index < 0x7fff_ffff,
        query.register_flag().value(w) == 1,
        address_demands(query, index, w),
    ensures
        query.goes_to_register(index, w),
{
    match query.query_type {
        ShuffleRamQueryType::RegisterOnly { register_index } => {
            lemma_bound(Boolean::Constant(true), register_index, index, w);
        },
        ShuffleRamQueryType::RegisterOrRam { is_register, address } => {
            lemma_bound(is_register, address.low, index, w);
            lemma_bound(is_register, address.high, 0, w);
        },
    }
}

/// An access that can go to memory does so where its flag is set, and goes to a register where it is
/// not; its address, its values and its time stay as they are. One that goes to registers only is
/// left as it is.
pub proof fn law_accesses_of_memory(
    query: ShuffleRamMemQuery,
    flag: Boolean,
    w: spec_fn(Variable) -> int,
)
    ensures
        ({
            let after = query.in_memory_where(flag);
            &&& after.read_value == query.read_value
            &&& after.write_value == query.write_value
            &&& after.local_timestamp_in_cycle == query.local_timestamp_in_cycle
            &&& match (query.query_type, after.query_type) {
                (
                    ShuffleRamQueryType::RegisterOrRam { is_register: _, address },
                    ShuffleRamQueryType::RegisterOrRam { is_register, address: kept },
                ) => is_register.value(w) + flag.value(w) == 1 && kept == address,
                (
                    ShuffleRamQueryType::RegisterOnly { register_index },
                    ShuffleRamQueryType::RegisterOnly { register_index: kept },
                ) => kept == register_index,
                _ => false,
            }
        }),
{
}

/// A bound variable has its value where the flag is set, and is free where the flag is zero.
pub proof fn law_bound_variables(
    flag: Boolean,
    v: Variable,
    value: int,
    w: spec_fn(Variable) -> int,
)
    requires
        0 <= w(v) < 0x7fff_ffff,
        0 <= value < 0x7fff_ffff,
    ensures
        flag.value(w) == 1 ==> (is_bound(flag, v, value, w) <==> w(v) == value),
        flag.value(w) == 0 ==> is_bound(flag, v, value, w),
{
    let d = w(v) - value;
    assert(1 * d == d && 0 * d == 0);
    assert(-0x7fff_ffff < d < 0x7fff_ffff);
}

} // verus!
