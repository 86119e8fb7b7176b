//! Tables of three columns whose rows are computed when they are asked for.
use crate::field::Mersenne31Field;
use vstd::prelude::*;

verus! {

/// What a table holds.
pub enum TableContent {
    /// The one row of zeros.
    Zero,
    /// Every byte, followed by zeros.
    SmallRange,
    /// Two bytes and their conjunction.
    And,
    /// Two bytes and their disjunction.
    Or,
    /// Two bytes and their exclusive disjunction.
    Xor,
    /// Three values of four bits.
    FourFourFour,
    /// Values of seven, three and six bits.
    SevenThreeSix,
    /// A half-word, its uppermost bit and its upper byte.
    SignAndHighByte,
    /// An upper half-word of an address: whether it lies behind the program memory, and its bits
    /// within that memory. The number is that of those bits.
    AddressSeparator(u32),
    /// An address in program memory and the two halves of the instruction there. The number is
    /// that of the address bits beyond 16.
    Program(Vec<u32>, u32),
    /// A CSR number, whether it is supported, and whether it requests a delegation.
    CsrProperties(bool, Vec<u32>),
    /// Rows that are written out.
    Rows(Vec<(u32, u32, u32)>),
}

/// The instruction that no program contains, and that pads its memory.
pub const UNIMP_OPCODE: u32 = 0xc000_1073;

/// The CSR of the oracle.
pub const ORACLE_CSR: u32 = 0x7c0;

pub open spec fn power_of_two(n: int) -> int {
    vstd::arithmetic::power2::pow2(n as nat) as int
}

/// The instruction at a place of a program image that is followed by padding.
pub open spec fn instruction_at(image: Seq<u32>, index: int) -> u32 {
    if index < image.len() {
        image[index]
    } else {
        UNIMP_OPCODE
    }
}

pub open spec fn bit(b: bool) -> int {
    if b {
        1
    } else {
        0
    }
}

impl TableContent {
    /// The number of rows.
    pub open spec fn rows(self) -> int {
        match self {
            TableContent::Zero => 1,
            TableContent::SmallRange => 0x100,
            TableContent::And => 0x1_0000,
            TableContent::Or => 0x1_0000,
            TableContent::Xor => 0x1_0000,
            TableContent::FourFourFour => 0x1000,
            TableContent::SevenThreeSix => 0x1_0000,
            TableContent::SignAndHighByte => 0x1_0000,
            TableContent::AddressSeparator(_) => 0x1_0000,
            TableContent::Program(_, bits) => power_of_two(14 + bits),
            TableContent::CsrProperties(_, _) => 0x1000,
            TableContent::Rows(rows) => rows@.len() as int,
        }
    }

    /// The row with number `i`.
    pub open spec fn row_at(self, i: int) -> (int, int, int) {
        match self {
            TableContent::Zero => (0, 0, 0),
            TableContent::SmallRange => (i, 0, 0),
            TableContent::And => (
                i / 0x100,
                i % 0x100,
                ((i / 0x100) as u32 & (i % 0x100) as u32) as int,
            ),
            TableContent::Or => (
                i / 0x100,
                i % 0x100,
                ((i / 0x100) as u32 | (i % 0x100) as u32) as int,
            ),
            TableContent::Xor => (
                i / 0x100,
                i % 0x100,
                ((i / 0x100) as u32 ^ (i % 0x100) as u32) as int,
            ),
            TableContent::FourFourFour => (i / 0x100, (i / 0x10) % 0x10, i % 0x10),
            TableContent::SevenThreeSix => (i / 0x200, (i / 0x40) % 0x8, i % 0x40),
            TableContent::SignAndHighByte => (i, i / 0x8000, i / 0x100),
            TableContent::AddressSeparator(bits) => (
                i,
                bit(i >= power_of_two(bits as int)),
                i % power_of_two(bits as int),
            ),
            TableContent::Program(image, _) => (
                4 * i,
                instruction_at(image@, i) as int % 0x1_0000,
                instruction_at(image@, i) as int / 0x1_0000,
            ),
            TableContent::CsrProperties(oracle, delegations) => (
                i,
                bit((i == ORACLE_CSR && oracle) || delegations@.contains(i as u32)),
                bit(delegations@.contains(i as u32)),
            ),
            TableContent::Rows(rows) => (
                rows@[i].0 as int,
                rows@[i].1 as int,
                rows@[i].2 as int,
            ),
        }
    }

    /// Whether the table holds a row.
    pub open spec fn holds(self, a: int, b: int, c: int) -> bool {
        exists|i: int| 0 <= i < self.rows() && #[trigger] self.row_at(i) == (a, b, c)
    }

    /// Whether the table has its rows in the order of their first column, and one for `key`.
    pub open spec fn has_key(self, key: int) -> bool {
        match self {
            TableContent::Zero => key == 0,
            TableContent::SmallRange => 0 <= key < 0x100,
            TableContent::SignAndHighByte => 0 <= key < 0x1_0000,
            TableContent::AddressSeparator(_) => 0 <= key < 0x1_0000,
            TableContent::Program(_, _) => key % 4 == 0 && 0 <= key < 4 * self.rows(),
            TableContent::CsrProperties(_, _) => 0 <= key < 0x1000,
            TableContent::Rows(rows) => {
                &&& 0 <= key < rows@.len()
                &&& rows@[key].0 == key
                &&& rows@[key].1 < 0x7fff_ffff
                &&& rows@[key].2 < 0x7fff_ffff
            },
            _ => false,
        }
    }

    /// The number of the row with a key.
    pub open spec fn index_of(self, key: int) -> int {
        match self {
            TableContent::Program(_, _) => key / 4,
            _ => key,
        }
    }

    /// Sizes are within machine limits.
    pub open spec fn well_formed(self) -> bool {
        match self {
            TableContent::AddressSeparator(bits) => bits <= 16,
            TableContent::Program(_, bits) => 0 < bits < 48,
            _ => true,
        }
    }
}

proof fn lemma_shift(n: u64)
    requires
        n < 64,
    ensures
        1u64 << n == power_of_two(n as int),
        power_of_two(n as int) > 0,
{
    vstd::arithmetic::power2::lemma_pow2_pos(n as nat);
    vstd::arithmetic::power2::lemma2_to64_rest();
    if n < 63 {
        vstd::arithmetic::power2::lemma_pow2_strictly_increases(n as nat, 63);
    }
    vstd::bits::lemma_u64_shl_is_mul(1, n);
}

/// Two to the power of `n`.
pub fn shift(n: u32) -> (r: u64)
    requires
        n < 64,
    ensures
        r == power_of_two(n as int),
        r > 0,
{
    proof {
        lemma_shift(n as u64);
    }
    1u64 << (n as u64)
}

/// Decides whether a list holds a number.
pub fn contains(list: &Vec<u32>, value: u32) -> (r: bool)
    ensures
        r == list@.contains(value),
{
    let mut i: usize = 0;
    while i < list.len()
        invariant
            i <= list@.len(),
            forall|j: int| 0 <= j < i ==> list@[j] != value,
        decreases list@.len() - i,
    {
        if list[i] == value {
            assert(list@[i as int] == value);
            return true;
        }
        i = i + 1;
    }
    false
}

/// A copy of a list of words.
pub fn copy_of(words: &[u32]) -> (r: Vec<u32>)
    ensures
        r@ == words@,
{
    let mut copy: Vec<u32> = Vec::new();
    let mut i: usize = 0;
    while i < words.len()
        invariant
            i <= words@.len(),
            copy@ == words@.take(i as int),
        decreases words@.len() - i,
    {
        copy.push(words[i]);
        assert(copy@ =~= words@.take(i + 1));
        i = i + 1;
    }
    assert(copy@ =~= words@);
    copy
}

/// A lookup table with the number that it has among all tables.
pub struct LookupTable {
    pub content: TableContent,
    pub id: u32,
}

impl LookupTable {
    pub open spec fn well_formed(&self) -> bool {
        self.content.well_formed()
    }

    /// The number of rows.
    pub fn num_rows(&self) -> (r: u64)
        requires
            self.well_formed(),
        ensures
            r == self.content.rows(),
    {
        match &self.content {
            TableContent::Zero => 1,
            TableContent::SmallRange => 0x100,
            TableContent::And => 0x1_0000,
            TableContent::Or => 0x1_0000,
            TableContent::Xor => 0x1_0000,
            TableContent::FourFourFour => 0x1000,
            TableContent::SevenThreeSix => 0x1_0000,
            TableContent::SignAndHighByte => 0x1_0000,
            TableContent::AddressSeparator(_) => 0x1_0000,
            TableContent::Program(_, bits) => shift(14 + *bits),
            TableContent::CsrProperties(_, _) => 0x1000,
            TableContent::Rows(rows) => rows.len() as u64,
        }
    }

    /// The row with number `i`.
    pub fn row(&self, i: u64) -> (r: (u64, u64, u64))
        requires
            self.well_formed(),
            i < self.content.rows(),
        ensures
            (r.0 as int, r.1 as int, r.2 as int) == self.content.row_at(i as int),
    {
        match &self.content {
            TableContent::Zero => (0, 0, 0),
            TableContent::SmallRange => (i, 0, 0),
            TableContent::And => {
                let (a, b) = ((i / 0x100) as u32, (i % 0x100) as u32);
                (i / 0x100, i % 0x100, (a & b) as u64)
            },
            TableContent::Or => {
                let (a, b) = ((i / 0x100) as u32, (i % 0x100) as u32);
                (i / 0x100, i % 0x100, (a | b) as u64)
            },
            TableContent::Xor => {
                let (a, b) = ((i / 0x100) as u32, (i % 0x100) as u32);
                (i / 0x100, i % 0x100, (a ^ b) as u64)
            },
            TableContent::FourFourFour => (i / 0x100, (i / 0x10) % 0x10, i % 0x10),
            TableContent::SevenThreeSix => (i / 0x200, (i / 0x40) % 0x8, i % 0x40),
            TableContent::SignAndHighByte => (i, i / 0x8000, i / 0x100),
            TableContent::AddressSeparator(bits) => {
                let bound: u64 = shift(*bits);
                (
                    i,
                    if i >= bound {
                        1
                    } else {
                        0
                    },
                    i % bound,
                )
            },
            TableContent::Program(image, bits) => {
                proof {
                    vstd::arithmetic::power2::lemma2_to64_rest();
                    if bits < 48 {
                        vstd::arithmetic::power2::lemma_pow2_strictly_increases(
                            (14 + *bits) as nat,
                            62,
                        );
                    }
                }
                let opcode: u32 = if i < image.len() as u64 {
                    image[i as usize]
                } else {
                    UNIMP_OPCODE
                };
                (4 * i, (opcode % 0x1_0000) as u64, (opcode / 0x1_0000) as u64)
            },
            TableContent::CsrProperties(oracle, delegations) => {
                let csr: u32 = i as u32;
                let delegates = contains(delegations, csr);
                let supported = (csr == ORACLE_CSR && *oracle) || delegates;
                (
                    i,
                    if supported {
                        1
                    } else {
                        0
                    },
                    if delegates {
                        1
                    } else {
                        0
                    },
                )
            },
            TableContent::Rows(rows) => {
                let length: usize = rows.len();
                assert(i < length);
                let row = rows[i as usize];
                (row.0 as u64, row.1 as u64, row.2 as u64)
            },
        }
    }

    /// The number of the row with key `key`, for tables whose rows are in the order of their keys.
    pub fn row_index(&self, key: u64) -> (r: u64)
        requires
            self.well_formed(),
            self.content.has_key(key as int),
        ensures
            r == self.content.index_of(key as int),
            r < self.content.rows(),
            self.content.row_at(r as int).0 == key,
    {
        match &self.content {
            TableContent::Program(_, _) => key / 4,
            _ => key,
        }
    }

    /// The two values that stand beside `key`, for tables whose rows are in the order of their
    /// keys.
    pub fn lookup_value(&self, keys: &[Mersenne31Field; 1]) -> (r: [Mersenne31Field; 2])
        requires
            self.well_formed(),
            self.content.has_key(keys@[0]@),
        ensures
            self.content.row_at(self.content.index_of(keys@[0]@)) == (keys@[0]@, r@[0]@, r@[1]@),
            self.content.holds(keys@[0]@, r@[0]@, r@[1]@),
    {
        let key: u64 = keys[0].as_u64_reduced();
        let i: u64 = self.row_index(key);
        let (_, b, c) = self.row(i);
        assert(self.content.row_at(i as int) == (key as int, b as int, c as int));
        proof {
            if let TableContent::AddressSeparator(bits) = self.content {
                lemma_shift(bits as u64);
                vstd::arithmetic::div_mod::lemma_mod_decreases(
                    key as nat,
                    power_of_two(bits as int) as nat,
                );
            }
        }
        [Mersenne31Field::from_u64_unchecked(b), Mersenne31Field::from_u64_unchecked(c)]
    }
}

proof fn lemma_four_four_four(a: int, b: int, c: int)
    ensures
        TableContent::FourFourFour.holds(a, b, c) <==> (0 <= a < 0x10 && 0 <= b < 0x10 && 0 <= c
            < 0x10),
{
    let table = TableContent::FourFourFour;
    if table.holds(a, b, c) {
        let i = choose|i: int| 0 <= i < table.rows() && #[trigger] table.row_at(i) == (a, b, c);
        assert(0 <= i / 0x100 < 0x10);
    }
    if 0 <= a < 0x10 && 0 <= b < 0x10 && 0 <= c < 0x10 {
        let i = a * 0x100 + b * 0x10 + c;
        assert(i / 0x100 == a);
        assert(i / 0x10 == a * 0x10 + b);
        assert((a * 0x10 + b) % 0x10 == b);
        assert(i % 0x10 == c);
        assert(table.row_at(i) == (a, b, c));
    }
}

proof fn lemma_seven_three_six(a: int, b: int, c: int)
    ensures
        TableContent::SevenThreeSix.holds(a, b, c) <==> (0 <= a < 0x80 && 0 <= b < 0x8 && 0 <= c
            < 0x40),
{
    let table = TableContent::SevenThreeSix;
    if table.holds(a, b, c) {
        let i = choose|i: int| 0 <= i < table.rows() && #[trigger] table.row_at(i) == (a, b, c);
        assert(0 <= i / 0x200 < 0x80);
    }
    if 0 <= a < 0x80 && 0 <= b < 0x8 && 0 <= c < 0x40 {
        let i = a * 0x200 + b * 0x40 + c;
        assert(i / 0x200 == a);
        assert(i / 0x40 == a * 0x8 + b);
        assert((a * 0x8 + b) % 0x8 == b);
        assert(i % 0x40 == c);
        assert(table.row_at(i) == (a, b, c));
    }
}

/// The checks of widths hold exactly the rows that their names say.
pub proof fn law_width_tables(a: int, b: int, c: int)
    ensures
        TableContent::FourFourFour.holds(a, b, c) <==> (0 <= a < 0x10 && 0 <= b < 0x10 && 0 <= c
            < 0x10),
        TableContent::SevenThreeSix.holds(a, b, c) <==> (0 <= a < 0x80 && 0 <= b < 0x8 && 0 <= c
            < 0x40),
{
    lemma_four_four_four(a, b, c);
    lemma_seven_three_six(a, b, c);
}

/// The tables of byte operations hold every pair of bytes once, in order, each beside the result of
/// the operation.
pub proof fn law_byte_operation_tables(a: u32, b: u32, c: int)
    requires
        a < 0x100,
        b < 0x100,
    ensures
        TableContent::And.rows() == 0x1_0000,
        TableContent::And.row_at(0x100 * a + b) == (a as int, b as int, (a & b) as int),
        TableContent::And.holds(a as int, b as int, c) <==> c == a & b,
        TableContent::Or.rows() == 0x1_0000,
        TableContent::Or.row_at(0x100 * a + b) == (a as int, b as int, (a | b) as int),
        TableContent::Or.holds(a as int, b as int, c) <==> c == a | b,
        TableContent::Xor.rows() == 0x1_0000,
        TableContent::Xor.row_at(0x100 * a + b) == (a as int, b as int, (a ^ b) as int),
        TableContent::Xor.holds(a as int, b as int, c) <==> c == a ^ b,
{
    let i = 0x100 * a + b;
    assert(i / 0x100 == a && i % 0x100 == b);
    assert(TableContent::And.row_at(i) == (a as int, b as int, (a & b) as int));
    assert(TableContent::Or.row_at(i) == (a as int, b as int, (a | b) as int));
    assert(TableContent::Xor.row_at(i) == (a as int, b as int, (a ^ b) as int));
}

/// The tables with one key have a row for each key, in the order of the keys: every byte beside
/// zeros; every half-word beside its uppermost bit and its upper byte; the number zero alone.
pub proof fn law_key_tables(key: int)
    ensures
        TableContent::Zero.rows() == 1,
        TableContent::Zero.row_at(0) == (0int, 0int, 0int),
        TableContent::SmallRange.rows() == 0x100,
        0 <= key < 0x100 ==> TableContent::SmallRange.row_at(key) == (key, 0int, 0int),
        TableContent::SignAndHighByte.rows() == 0x1_0000,
        ({
            let (k, sign, high) = TableContent::SignAndHighByte.row_at(key);
            0 <= key < 0x1_0000 ==> {
                &&& k == key
                &&& sign == if key >= 0x8000 {
                    1int
                } else {
                    0int
                }
                &&& 0 <= high < 0x100
                &&& 0 <= key - 0x100 * high < 0x100
            }
        }),
{
}

/// The upper half of an address tells whether the address lies behind a program memory of so many
/// upper bits, and where it lies within one.
pub proof fn law_address_table(bits: u32, key: int)
    requires
        bits <= 16,
        0 <= key < 0x1_0000,
    ensures
        ({
            let size = vstd::arithmetic::power2::pow2(bits as nat) as int;
            let table = TableContent::AddressSeparator(bits);
            let (k, behind, within) = table.row_at(key);
            &&& table.rows() == 0x1_0000
            &&& k == key
            &&& behind == if key < size {
                0int
            } else {
                1int
            }
            &&& key < size ==> within == key
            &&& 0 <= within < size
            &&& exists|n: int| key == #[trigger] (n * size) + within
        }),
{
    let size = vstd::arithmetic::power2::pow2(bits as nat) as int;
    vstd::arithmetic::power2::lemma_pow2_pos(bits as nat);
    vstd::arithmetic::div_mod::lemma_fundamental_div_mod(key, size);
    vstd::arithmetic::div_mod::lemma_mod_bound(key, size);
    if key < size {
        vstd::arithmetic::div_mod::lemma_small_mod(key as nat, size as nat);
    }
    let n = key / size;
    assert(size * n == n * size) by (nonlinear_arith);
    assert(key == n * size + key % size);
}

/// In the tables whose rows are in the order of their keys, the row of a key is found by it.
pub proof fn law_rows_are_found_by_their_keys(table: TableContent, key: int)
    requires
        table.well_formed(),
        table.has_key(key),
    ensures
        0 <= table.index_of(key) < table.rows(),
        table.row_at(table.index_of(key)).0 == key,
{
}

} // verus!
