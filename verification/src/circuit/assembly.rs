//! The circuit under construction: variables, what they must satisfy, and how they are computed.
use crate::bits;
use crate::circuit::expression::{Boolean, Constraint, Register, Variable};
use crate::field;
use vstd::prelude::*;

verus! {

/// The lookup tables that a machine may refer to.
#[derive(Clone, Copy, PartialEq, Eq, Structural, Debug)]
pub enum TableType {
    ZeroEntry,
    OpTypeBitmask,
    CsrBitmask,
    RangeCheckSmall,
    And,
    Or,
    Xor,
    QuickDecodeDecompositionCheck4x4x4,
    QuickDecodeDecompositionCheck7x3x6,
    U16GetSignAndHighByte,
    RomAddressSpaceSeparator,
    RomRead,
    SpecialCSRProperties,
    /// A table that an instruction family brings along, by its number.
    Family(u8),
}

impl TableType {
    pub open spec fn id(self) -> u32 {
        match self {
            TableType::ZeroEntry => 0,
            TableType::OpTypeBitmask => 1,
            TableType::CsrBitmask => 2,
            TableType::RangeCheckSmall => 3,
            TableType::And => 4,
            TableType::Or => 5,
            TableType::Xor => 6,
            TableType::QuickDecodeDecompositionCheck4x4x4 => 7,
            TableType::QuickDecodeDecompositionCheck7x3x6 => 8,
            TableType::U16GetSignAndHighByte => 9,
            TableType::RomAddressSpaceSeparator => 10,
            TableType::RomRead => 11,
            TableType::SpecialCSRProperties => 12,
            TableType::Family(n) => (0x100 + n) as u32,
        }
    }

    /// The number of a table, which tells it from all others.
    pub fn to_table_id(&self) -> (r: u32)
        ensures
            r == self.id(),
    {
        match self {
            TableType::ZeroEntry => 0,
            TableType::OpTypeBitmask => 1,
            TableType::CsrBitmask => 2,
            TableType::RangeCheckSmall => 3,
            TableType::And => 4,
            TableType::Or => 5,
            TableType::Xor => 6,
            TableType::QuickDecodeDecompositionCheck4x4x4 => 7,
            TableType::QuickDecodeDecompositionCheck7x3x6 => 8,
            TableType::U16GetSignAndHighByte => 9,
            TableType::RomAddressSpaceSeparator => 10,
            TableType::RomRead => 11,
            TableType::SpecialCSRProperties => 12,
            TableType::Family(n) => 0x100 + *n as u32,
        }
    }
}

/// Tables with the same number are the same table.
pub proof fn law_table_ids_are_distinct(a: TableType, b: TableType)
    ensures
        a.id() == b.id() ==> a == b,
{
}

/// The contents of the lookup tables: which rows of three field elements each one holds.
pub struct TableContents {
    pub rows: spec_fn(TableType, int, int, int) -> bool,
}

impl TableContents {
    pub open spec fn holds(self, table: TableType, a: int, b: int, c: int) -> bool {
        (self.rows)(table, a, b, c)
    }
}

/// Where a value that the circuit does not compute comes from.
#[derive(Clone, Copy, PartialEq, Eq, Structural, Debug)]
pub enum Placeholder {
    PcInit,
    ShuffleRamReadValue(u32),
    ShuffleRamAddress(u32),
    ShuffleRamWriteValue(u32),
}

/// The chunks that an instruction word is cut into. Bit 7 and bit 20 have no variable of their
/// own.
#[derive(Clone, Copy, PartialEq, Eq, Structural, Debug)]
pub struct InstructionChunks<T> {
    /// Bits 0 to 6.
    pub opcode: T,
    /// Bits 8 to 11.
    pub imm4_1: T,
    /// Bits 12 to 14.
    pub funct3: T,
    /// Bit 15.
    pub rs1_low: T,
    /// Bits 16 to 19.
    pub rs1_high: T,
    /// Bits 21 to 24.
    pub rs2_high: T,
    /// Bits 25 to 30.
    pub imm10_5: T,
    /// Bit 31.
    pub sign_bit: T,
}

/// The chunks of the instruction with halves `low` and `high`.
pub open spec fn chunks_of(low: int, high: int) -> InstructionChunks<int> {
    InstructionChunks {
        opcode: low % 0x80,
        imm4_1: (low / 0x100) % 0x10,
        funct3: (low / 0x1000) % 0x8,
        rs1_low: (low / 0x8000) % 2,
        rs1_high: high % 0x10,
        rs2_high: (high / 0x20) % 0x10,
        imm10_5: (high / 0x200) % 0x40,
        sign_bit: (high / 0x8000) % 2,
    }
}

/// The values of chunk variables under a witness.
pub open spec fn chunk_values(
    chunks: InstructionChunks<Variable>,
    w: spec_fn(Variable) -> int,
) -> InstructionChunks<int> {
    InstructionChunks {
        opcode: w(chunks.opcode),
        imm4_1: w(chunks.imm4_1),
        funct3: w(chunks.funct3),
        rs1_low: w(chunks.rs1_low),
        rs1_high: w(chunks.rs1_high),
        rs2_high: w(chunks.rs2_high),
        imm10_5: w(chunks.imm10_5),
        sign_bit: w(chunks.sign_bit),
    }
}

/// Cuts the halves of an instruction word into chunks.
pub fn cut_instruction(low: u16, high: u16) -> (r: InstructionChunks<u16>)
    ensures
        ({
            let c = chunks_of(low as int, high as int);
            &&& r.opcode == c.opcode
            &&& r.imm4_1 == c.imm4_1
            &&& r.funct3 == c.funct3
            &&& r.rs1_low == c.rs1_low
            &&& r.rs1_high == c.rs1_high
            &&& r.rs2_high == c.rs2_high
            &&& r.imm10_5 == c.imm10_5
            &&& r.sign_bit == c.sign_bit
        }),
{
    InstructionChunks {
        opcode: low % 0x80,
        imm4_1: (low / 0x100) % 0x10,
        funct3: (low / 0x1000) % 0x8,
        rs1_low: (low / 0x8000) % 2,
        rs1_high: high % 0x10,
        rs2_high: (high / 0x20) % 0x10,
        imm10_5: (high / 0x200) % 0x40,
        sign_bit: (high / 0x8000) % 2,
    }
}

/// Bit `i` of a mask.
pub open spec fn bit_of(mask: int, i: nat) -> int {
    (mask / vstd::arithmetic::power2::pow2(i) as int) % 2
}

/// What every witness must satisfy.
pub enum Statement {
    /// The polynomial vanishes.
    Vanishes(Constraint),
    /// The three values are a row of the table.
    InTable(TableType, Constraint, Constraint, Constraint),
    /// The variable holds a value of that many bits.
    InRange(Variable, u32),
}

impl Statement {
    pub open spec fn holds(self, w: spec_fn(Variable) -> int, t: TableContents) -> bool {
        match self {
            Statement::Vanishes(c) => c.value(w) == 0,
            Statement::InTable(table, a, b, c) => t.holds(
                table,
                a.value(w),
                b.value(w),
                c.value(w),
            ),
            Statement::InRange(v, width) => 0 <= w(v)
                < vstd::arithmetic::power2::pow2(width as nat),
        }
    }
}

/// How the values of some variables come about.
pub enum WitnessRule {
    /// The value of a polynomial.
    Expression(Variable, Constraint),
    /// The chunks of an instruction.
    Chunks(Register, InstructionChunks<Variable>),
    /// The bits of the two masks that the opcode table holds under a key.
    OpcodeBits(Constraint, Vec<Boolean>, Vec<Boolean>),
    /// The two values that a table holds under a key.
    TableOutputs(TableType, Constraint, Register),
    /// A value from outside.
    External(Register, Placeholder),
    /// Whether a sum of limbs has more than 16 bits.
    Carry(Variable, Constraint),
    /// Whether the value of a polynomial is zero, and its inverse where it is not.
    ZeroCheck(Constraint, Variable, Variable),
    /// A sum or a difference of 32-bit values, where its flag is set.
    Sum(SumRule),
}

/// How the sum or the difference of two registers is computed, with the carry out of the lower limb
/// and out of the upper one. The difference is the number that, added to the second register, makes
/// up the first one; the carries are those of that addition.
#[derive(Clone, Copy, Debug)]
pub struct SumRule {
    pub a: Register,
    pub b: Register,
    pub subtract: bool,
    pub exec_flag: Boolean,
    pub result: Register,
    pub carry: Boolean,
    pub overflow: Boolean,
}

impl SumRule {
    /// The result modulo `2^32`.
    pub open spec fn outcome(self, w: spec_fn(Variable) -> int) -> int {
        let (a, b) = (self.a.value(w), self.b.value(w));
        bits::wrap32(
            if self.subtract {
                a - b
            } else {
                a + b
            },
        ) as int
    }

    /// The numbers whose addition has the carries.
    pub open spec fn summands(self, w: spec_fn(Variable) -> int) -> (int, int) {
        if self.subtract {
            (self.b.value(w), self.outcome(w))
        } else {
            (self.a.value(w), self.b.value(w))
        }
    }

    pub open spec fn is_computed(self, w: spec_fn(Variable) -> int) -> bool {
        let (y, z) = self.summands(w);
        &&& w(self.result.low) == self.outcome(w) % 0x1_0000
        &&& w(self.result.high) == self.outcome(w) / 0x1_0000
        &&& self.carry.value(w) == bit(y % 0x1_0000 + z % 0x1_0000 >= 0x1_0000)
        &&& self.overflow.value(w) == bit(y + z >= 0x1_0000_0000)
    }
}

pub open spec fn bit(b: bool) -> int {
    if b {
        1
    } else {
        0
    }
}

/// Whether a flag says that a value is zero, and a number inverts the value where it is not.
pub open spec fn is_zero_check(value: int, flag: int, inverse: int) -> bool {
    &&& flag == bit(field::residue(value) == 0)
    &&& field::residue(value) != 0 ==> field::residue(value * inverse) == 1
}

/// The values that come from outside of a row, as two limbs.
pub struct OutsideValues {
    pub limbs: spec_fn(Placeholder) -> (int, int),
}

impl OutsideValues {
    /// Whether a register holds the value of a placeholder.
    pub open spec fn fills(
        self,
        r: Register,
        placeholder: Placeholder,
        w: spec_fn(Variable) -> int,
    ) -> bool {
        w(r.low) == (self.limbs)(placeholder).0 && w(r.high) == (self.limbs)(placeholder).1
    }
}

/// Whether some booleans hold the bits of `mask`.
pub open spec fn holds_bits(bits: Seq<Boolean>, mask: int, w: spec_fn(Variable) -> int) -> bool {
    forall|i: int| 0 <= i < bits.len() ==> (#[trigger] bits[i]).value(w) == bit_of(mask, i as nat)
}

impl WitnessRule {
    /// Whether the witness was computed by this rule.
    pub open spec fn respected(
        self,
        w: spec_fn(Variable) -> int,
        t: TableContents,
        x: OutsideValues,
    ) -> bool {
        match self {
            WitnessRule::Expression(v, c) => w(v) == c.value(w),
            WitnessRule::Chunks(instruction, chunks) => chunk_values(chunks, w) == chunks_of(
                w(instruction.low),
                w(instruction.high),
            ),
            WitnessRule::OpcodeBits(key, first, second) => forall|a: int, b: int| #[trigger]
                t.holds(TableType::OpTypeBitmask, key.value(w), a, b) ==> holds_bits(first@, a, w)
                    && holds_bits(second@, b, w),
            WitnessRule::TableOutputs(table, key, output) => t.holds(
                table,
                key.value(w),
                w(output.low),
                w(output.high),
            ),
            WitnessRule::External(r, placeholder) => x.fills(r, placeholder, w),
            WitnessRule::Carry(v, c) => w(v) == bit(c.value(w) >= 0x1_0000),
            WitnessRule::ZeroCheck(c, flag, inverse) => is_zero_check(
                c.value(w),
                w(flag),
                w(inverse),
            ),
            WitnessRule::Sum(rule) => rule.exec_flag.value(w) == 1 ==> rule.is_computed(w),
        }
    }
}

/// A circuit under construction.
pub struct BasicAssembly {
    next_variable: usize,
    statements: Vec<Statement>,
    rules: Vec<WitnessRule>,
}

impl BasicAssembly {
    /// The number of variables, which is the number of the next one.
    pub closed spec fn next(&self) -> int {
        self.next_variable as int
    }

    pub closed spec fn statements(&self) -> Seq<Statement> {
        self.statements@
    }

    pub closed spec fn rules(&self) -> Seq<WitnessRule> {
        self.rules@
    }

    /// There is no negative number of variables.
    pub proof fn lemma_next_is_not_negative(&self)
        ensures
            0 <= self.next() <= usize::MAX,
    {
    }

    /// Whether the witness `w` satisfies everything that the circuit demands.
    pub open spec fn satisfied(&self, w: spec_fn(Variable) -> int, t: TableContents) -> bool {
        forall|i: int| 0 <= i < self.statements().len() ==> (#[trigger] self.statements()[i]).holds(w, t)
    }

    /// Whether the witness `w` was computed by the rules of the circuit.
    pub open spec fn computed(
        &self,
        w: spec_fn(Variable) -> int,
        t: TableContents,
        x: OutsideValues,
    ) -> bool {
        forall|i: int| 0 <= i < self.rules().len() ==> (#[trigger] self.rules()[i]).respected(w, t, x)
    }

    /// The empty circuit.
    pub fn new() -> (r: Self)
        ensures
            r.next() == 0,
            r.statements().len() == 0,
            r.rules().len() == 0,
    {
        BasicAssembly { next_variable: 0, statements: Vec::new(), rules: Vec::new() }
    }

    pub fn num_variables(&self) -> (r: usize)
        ensures
            r == self.next(),
    {
        self.next_variable
    }

    /// How the variables are computed.
    pub fn into_rules(self) -> (r: Vec<WitnessRule>)
        ensures
            r@ == self.rules(),
    {
        self.rules
    }

    pub fn num_statements(&self) -> (r: usize)
        ensures
            r == self.statements().len(),
    {
        self.statements.len()
    }

    /// One of the statements.
    pub fn statement(&self, i: usize) -> (r: &Statement)
        requires
            i < self.statements().len(),
        ensures
            *r == self.statements()[i as int],
    {
        &self.statements[i]
    }

    /// A fresh variable.
    pub fn add_variable(&mut self) -> (r: Variable)
        requires
            old(self).next() < usize::MAX,
        ensures
            r == Variable(old(self).next() as usize),
            r.0 == old(self).next(),
            final(self).next() == old(self).next() + 1,
            final(self).statements() == old(self).statements(),
            final(self).rules() == old(self).rules(),
    {
        let v = Variable(self.next_variable);
        self.next_variable = self.next_variable + 1;
        v
    }

    /// Demands `statement` of every witness.
    pub fn demand(&mut self, statement: Statement)
        ensures
            final(self).next() == old(self).next(),
            final(self).statements() == old(self).statements().push(statement),
            final(self).rules() == old(self).rules(),
            forall|w: spec_fn(Variable) -> int, t: TableContents| #[trigger]
                final(self).satisfied(w, t) <==> old(self).satisfied(w, t) && statement.holds(w, t),
    {
        self.statements.push(statement);
        proof {
            assert forall|w: spec_fn(Variable) -> int, t: TableContents| #[trigger]
                self.satisfied(w, t) <==> old(self).satisfied(w, t) && statement.holds(w, t) by {
                let (before, after) = (old(self).statements(), self.statements());
                assert(after == before.push(statement));
                if self.satisfied(w, t) {
                    assert(after[before.len() as int] == statement);
                    assert forall|i: int| 0 <= i < before.len() implies (
                    #[trigger] before[i]).holds(w, t) by {
                        assert(before[i] == after[i]);
                    }
                }
            }
        }
    }

    /// Records how some variables are computed.
    pub fn set_values(&mut self, rule: WitnessRule)
        ensures
            final(self).next() == old(self).next(),
            final(self).statements() == old(self).statements(),
            final(self).rules() == old(self).rules().push(rule),
            forall|w: spec_fn(Variable) -> int, t: TableContents, x: OutsideValues| #[trigger]
                final(self).computed(w, t, x) <==> old(self).computed(w, t, x) && rule.respected(w, t, x),
    {
        self.rules.push(rule);
        proof {
            assert forall|w: spec_fn(Variable) -> int, t: TableContents, x: OutsideValues| #[trigger]
                self.computed(w, t, x) <==> old(self).computed(w, t, x) && rule.respected(w, t, x) by {
                let (before, after) = (old(self).rules(), self.rules());
                assert(after == before.push(rule));
                if self.computed(w, t, x) {
                    assert(after[before.len() as int] == rule);
                    assert forall|i: int| 0 <= i < before.len() implies (
                    #[trigger] before[i]).respected(w, t, x) by {
                        assert(before[i] == after[i]);
                    }
                }
            }
        }
    }

    /// Demands that a polynomial vanishes.
    pub fn add_constraint(&mut self, c: Constraint)
        ensures
            final(self).next() == old(self).next(),
            final(self).statements() == old(self).statements().push(Statement::Vanishes(c)),
            final(self).rules() == old(self).rules(),
            forall|w: spec_fn(Variable) -> int, t: TableContents| #[trigger]
                final(self).satisfied(w, t) <==> old(self).satisfied(w, t) && c.value(w) == 0,
    {
        self.demand(Statement::Vanishes(c));
    }

    /// A fresh variable that can only be zero or one.
    pub fn add_boolean_variable(&mut self) -> (r: Boolean)
        requires
            old(self).next() < usize::MAX,
        ensures
            r == Boolean::Is(Variable(old(self).next() as usize)),
            final(self).next() == old(self).next() + 1,
            final(self).statements().len() == old(self).statements().len() + 1,
            final(self).rules() == old(self).rules(),
            forall|w: spec_fn(Variable) -> int, t: TableContents| #[trigger]
                final(self).satisfied(w, t) <==> old(self).satisfied(w, t) && field::residue(
                    r.value(w) * (r.value(w) - 1),
                ) == 0,
    {
        let v = self.add_variable();
        assert(forall|w: spec_fn(Variable) -> int, t: TableContents| #[trigger]
            self.satisfied(w, t) <==> old(self).satisfied(w, t));
        let b = Constraint::weighted(v, 1);
        let b_minus_one = Constraint::weighted(v, 1).minus(&Constraint::constant(1));
        let product = b.times(&b_minus_one);
        proof {
            assert forall|w: spec_fn(Variable) -> int| #[trigger]
                product.value(w) == field::residue(w(v) * (w(v) - 1)) by {
                let x = w(v);
                assert(b.value(w) == field::residue(1 * x));
                crate::circuit::expression::lemma_combine(x, 1);
                assert(b_minus_one.value(w) == field::residue(x - 1));
                crate::circuit::expression::lemma_combine(x, x - 1);
            }
        }
        self.add_constraint(product);
        Boolean::Is(v)
    }

    /// A fresh variable that equals a polynomial, and is computed from it.
    pub fn add_variable_from_constraint(&mut self, c: Constraint) -> (r: Variable)
        requires
            old(self).next() < usize::MAX,
        ensures
            r == Variable(old(self).next() as usize),
            final(self).next() == old(self).next() + 1,
            final(self).statements().len() == old(self).statements().len() + 1,
            forall|w: spec_fn(Variable) -> int, t: TableContents| #[trigger]
                final(self).satisfied(w, t) <==> old(self).satisfied(w, t) && field::residue(w(r))
                    == c.value(w),
            forall|w: spec_fn(Variable) -> int, t: TableContents, x: OutsideValues| #[trigger]
                final(self).computed(w, t, x) <==> old(self).computed(w, t, x) && w(r) == c.value(w),
    {
        let v = self.add_variable();
        assert(forall|w: spec_fn(Variable) -> int, t: TableContents| #[trigger]
            self.satisfied(w, t) <==> old(self).satisfied(w, t));
        assert(forall|w: spec_fn(Variable) -> int, t: TableContents, x: OutsideValues| #[trigger]
            self.computed(w, t, x) <==> old(self).computed(w, t, x));
        let copy = c.duplicate();
        let difference = copy.minus(&Constraint::weighted(v, 1));
        proof {
            assert forall|w: spec_fn(Variable) -> int|
                (#[trigger] difference.value(w) == 0) <==> field::residue(w(v)) == c.value(w) by {
                let x = w(v);
                let y = c.value(w);
                assert(copy.value(w) == y);
                assert(difference.value(w) == field::residue(y - field::residue(1 * x)));
                let d = y - field::residue(x);
                assert(-0x7fff_ffff < d < 0x7fff_ffff);
            }
        }
        self.add_constraint(difference);
        let ghost middle = *self;
        self.set_values(WitnessRule::Expression(v, c));
        assert(forall|w: spec_fn(Variable) -> int, t: TableContents| #[trigger]
            self.satisfied(w, t) <==> middle.satisfied(w, t));
        v
    }

    /// Demands that three values are a row of a table.
    pub fn enforce_lookup_tuple_for_fixed_table(
        &mut self,
        table: TableType,
        a: Constraint,
        b: Constraint,
        c: Constraint,
    )
        ensures
            final(self).next() == old(self).next(),
            final(self).statements() == old(self).statements().push(
                Statement::InTable(table, a, b, c),
            ),
            final(self).rules() == old(self).rules(),
            forall|w: spec_fn(Variable) -> int, t: TableContents| #[trigger]
                final(self).satisfied(w, t) <==> old(self).satisfied(w, t) && t.holds(
                    table,
                    a.value(w),
                    b.value(w),
                    c.value(w),
                ),
    {
        self.demand(Statement::InTable(table, a, b, c));
    }

    /// Demands that a variable holds a value of `width` bits.
    pub fn require_invariant(&mut self, v: Variable, width: u32)
        ensures
            final(self).next() == old(self).next(),
            final(self).statements() == old(self).statements().push(Statement::InRange(v, width)),
            final(self).rules() == old(self).rules(),
            forall|w: spec_fn(Variable) -> int, t: TableContents| #[trigger]
                final(self).satisfied(w, t) <==> old(self).satisfied(w, t) && 0 <= w(v)
                    < vstd::arithmetic::power2::pow2(width as nat),
    {
        self.demand(Statement::InRange(v, width));
    }

    /// Two fresh limbs whose values come from outside.
    pub fn new_unchecked_from_placeholder(&mut self, placeholder: Placeholder) -> (r: Register)
        requires
            old(self).next() + 2 <= usize::MAX,
        ensures
            r.low == Variable(old(self).next() as usize),
            r.high == Variable((old(self).next() + 1) as usize),
            final(self).next() == old(self).next() + 2,
            final(self).statements() == old(self).statements(),
            final(self).rules() == old(self).rules().push(WitnessRule::External(r, placeholder)),
            forall|w: spec_fn(Variable) -> int, t: TableContents, x: OutsideValues| #[trigger]
                final(self).computed(w, t, x) <==> old(self).computed(w, t, x) && x.fills(
                    r,
                    placeholder,
                    w,
                ),
    {
        let low = self.add_variable();
        let high = self.add_variable();
        let r = Register { low, high };
        let ghost before = *self;
        assert(forall|w: spec_fn(Variable) -> int, t: TableContents, x: OutsideValues| #[trigger]
            before.computed(w, t, x) <==> old(self).computed(w, t, x));
        self.set_values(WitnessRule::External(r, placeholder));
        r
    }
}

/// The tables that every machine knows have the numbers from zero on, in the order of their list;
/// those of families come behind them.
pub proof fn law_numbers_of_tables(n: u8)
    ensures
        TableType::ZeroEntry.id() == 0,
        TableType::OpTypeBitmask.id() == 1,
        TableType::CsrBitmask.id() == 2,
        TableType::RangeCheckSmall.id() == 3,
        TableType::And.id() == 4,
        TableType::Or.id() == 5,
        TableType::Xor.id() == 6,
        TableType::QuickDecodeDecompositionCheck4x4x4.id() == 7,
        TableType::QuickDecodeDecompositionCheck7x3x6.id() == 8,
        TableType::U16GetSignAndHighByte.id() == 9,
        TableType::RomAddressSpaceSeparator.id() == 10,
        TableType::RomRead.id() == 11,
        TableType::SpecialCSRProperties.id() == 12,
        TableType::Family(n).id() == 0x100 + n,
{
}

/// The chunks of an instruction have their widths, and with two bits more they make up its halves.
pub proof fn law_chunks_make_up_the_halves(low: u16, high: u16)
    ensures
        ({
            let c = chunks_of(low as int, high as int);
            let bit_7 = low - (c.opcode + 0x100 * c.imm4_1 + 0x1000 * c.funct3 + 0x8000
                * c.rs1_low);
            let bit_20 = high - (c.rs1_high + 0x20 * c.rs2_high + 0x200 * c.imm10_5 + 0x8000
                * c.sign_bit);
            &&& 0 <= c.opcode < 0x80
            &&& 0 <= c.imm4_1 < 0x10
            &&& 0 <= c.funct3 < 0x8
            &&& 0 <= c.rs1_low < 2
            &&& 0 <= c.rs1_high < 0x10
            &&& 0 <= c.rs2_high < 0x10
            &&& 0 <= c.imm10_5 < 0x40
            &&& 0 <= c.sign_bit < 2
            &&& bit_7 == 0 || bit_7 == 0x80
            &&& bit_20 == 0 || bit_20 == 0x10
        }),
{
    assert({
        let rest = low - (low % 0x80 + 0x100 * ((low / 0x100) % 0x10) + 0x1000 * ((low / 0x1000)
            % 0x8) + 0x8000 * ((low / 0x8000) % 2));
        rest == 0 || rest == 0x80
    }) by (bit_vector);
    assert({
        let rest = high - (high % 0x10 + 0x20 * ((high / 0x20) % 0x10) + 0x200 * ((high / 0x200)
            % 0x40) + 0x8000 * ((high / 0x8000) % 2));
        rest == 0 || rest == 0x10
    }) by (bit_vector);
}

/// The bits of a mask are its binary digits.
pub proof fn law_bits_of_a_mask(mask: int, i: nat)
    requires
        mask >= 0,
    ensures
        bit_of(mask, 0) == mask % 2,
        bit_of(mask, i + 1) == bit_of(mask / 2, i),
{
    vstd::arithmetic::power2::lemma2_to64();
    vstd::arithmetic::power2::lemma_pow2_unfold(i + 1);
    vstd::arithmetic::power2::lemma_pow2_pos(i);
    vstd::arithmetic::div_mod::lemma_div_denominator(
        mask,
        2,
        vstd::arithmetic::power2::pow2(i) as int,
    );
}

/// A sum modulo `2^32` and its carries.
proof fn lemma_sum_with_carries(y: int, z: int, s: int)
    requires
        0 <= y < 0x1_0000_0000,
        0 <= z < 0x1_0000_0000,
        s == (y + z) % 0x1_0000_0000,
    ensures
        y + z == s + 0x1_0000_0000 * bit(y + z >= 0x1_0000_0000),
        y % 0x1_0000 + z % 0x1_0000 == s % 0x1_0000 + 0x1_0000 * bit(
            y % 0x1_0000 + z % 0x1_0000 >= 0x1_0000,
        ),
{
    let (a, b) = (y / 0x1_0000, z / 0x1_0000);
    let (c, d) = (y % 0x1_0000, z % 0x1_0000);
    assert(y + z == 0x1_0000 * (a + b) + (c + d));
    assert((y + z) % 0x1_0000 == (c + d) % 0x1_0000);
}

/// A computed sum is the sum or the difference modulo `2^32`, in two limbs of 16 bits. The carries
/// are those of the addition that makes it up, limb by limb.
pub proof fn law_computed_sums(rule: SumRule, w: spec_fn(Variable) -> int)
    requires
        rule.is_computed(w),
        rule.a.in_range(w),
        rule.b.in_range(w),
    ensures
        rule.result.in_range(w),
        !rule.subtract ==> rule.a.value(w) + rule.b.value(w) == rule.result.value(w)
            + 0x1_0000_0000 * rule.overflow.value(w),
        !rule.subtract ==> w(rule.a.low) + w(rule.b.low) == w(rule.result.low) + 0x1_0000
            * rule.carry.value(w),
        rule.subtract ==> rule.b.value(w) + rule.result.value(w) == rule.a.value(w)
            + 0x1_0000_0000 * rule.overflow.value(w),
        rule.subtract ==> w(rule.b.low) + w(rule.result.low) == w(rule.a.low) + 0x1_0000
            * rule.carry.value(w),
        rule.carry.value(w) == 0 || rule.carry.value(w) == 1,
        rule.overflow.value(w) == 0 || rule.overflow.value(w) == 1,
{
    let (a, b, r) = (rule.a.value(w), rule.b.value(w), rule.outcome(w));
    assert(a % 0x1_0000 == w(rule.a.low));
    assert(b % 0x1_0000 == w(rule.b.low));
    assert(rule.result.value(w) == r);
    if rule.subtract {
        assert((b + r) % 0x1_0000_0000 == a) by {
            assert(r == (a - b) % 0x1_0000_0000);
        }
        lemma_sum_with_carries(b, r, a);
    } else {
        lemma_sum_with_carries(a, b, r);
    }
}

} // verus!
