//! The program as a lookup table.
use crate::tables::lookup;
use crate::tables::lookup::{copy_of, shift, LookupTable, TableContent, UNIMP_OPCODE};
use vstd::prelude::*;

verus! {

/// Whether `n` is a power of two.
pub open spec fn is_power_of_two(n: int) -> bool {
    exists|k: nat| n == #[trigger] vstd::arithmetic::power2::pow2(k)
}

/// Fills a program up to the size of its memory with the instruction that no program contains.
pub fn pad_bytecode<const ROM_ADDRESS_SPACE_BOUND: u32>(bytecode: &mut Vec<u32>)
    requires
        is_power_of_two(ROM_ADDRESS_SPACE_BOUND as int),
        old(bytecode)@.len() <= ROM_ADDRESS_SPACE_BOUND / 4,
    ensures
        final(bytecode)@ == Seq::new(
            (ROM_ADDRESS_SPACE_BOUND / 4) as nat,
            |i: int| lookup::instruction_at(old(bytecode)@, i),
        ),
{
    let length: usize = (ROM_ADDRESS_SPACE_BOUND / 4) as usize;
    let ghost initial = bytecode@;
    while bytecode.len() < length
        invariant
            length == ROM_ADDRESS_SPACE_BOUND / 4,
            initial.len() <= bytecode@.len() <= length,
            forall|i: int|
                0 <= i < bytecode@.len() ==> bytecode@[i] == lookup::instruction_at(initial, i),
        decreases length - bytecode@.len(),
    {
        bytecode.push(UNIMP_OPCODE);
    }
}

/// The table of a program: for each address the two halves of the instruction there, as the field
/// is a little too small for a whole one. Behind the program stands the instruction that no
/// program contains.
pub fn create_table_for_rom_image<const ROM_ADDRESS_SPACE_SECOND_WORD_BITS: usize>(
    image: &[u32],
    id: u32,
) -> (r: LookupTable)
    requires
        0 < ROM_ADDRESS_SPACE_SECOND_WORD_BITS < 48,
        image@.len() * 4 <= lookup::power_of_two(16 + ROM_ADDRESS_SPACE_SECOND_WORD_BITS),
    ensures
        r.well_formed(),
        r.id == id,
        r.content is Program,
        r.content->Program_0@ == image@,
        r.content->Program_1 == ROM_ADDRESS_SPACE_SECOND_WORD_BITS,
{
    LookupTable {
        content: TableContent::Program(
            copy_of(image),
            ROM_ADDRESS_SPACE_SECOND_WORD_BITS as u32,
        ),
        id,
    }
}

/// The table holds, at every address of the program memory, the instruction of the program, and
/// nothing at addresses that are no multiples of four.
pub proof fn law_rom_table_is_the_program(
    image: Vec<u32>,
    bits: u32,
    address: int,
    low: int,
    high: int,
)
    requires
        0 < bits < 48,
    ensures
        TableContent::Program(image, bits).holds(address, low, high) <==> {
            &&& 0 <= address < 4 * lookup::power_of_two(14 + bits)
            &&& address % 4 == 0
            &&& low == lookup::instruction_at(image@, address / 4) as int % 0x1_0000
            &&& high == lookup::instruction_at(image@, address / 4) as int / 0x1_0000
        },
{
    let table = TableContent::Program(image, bits);
    if 0 <= address < 4 * table.rows() && address % 4 == 0 {
        let i = address / 4;
        assert(table.row_at(i).0 == address);
        if low == lookup::instruction_at(image@, i) as int % 0x1_0000 && high
            == lookup::instruction_at(image@, i) as int / 0x1_0000 {
            assert(table.row_at(i) == (address, low, high));
        }
    }
}

/// The bound of a memory whose addresses have 16 and `bits` more bits, in bytes.
pub fn rom_bound(bits: u32) -> (r: u64)
    requires
        bits < 48,
    ensures
        r == lookup::power_of_two(16 + bits),
{
    shift(16 + bits)
}

/// The program memory has four bytes for each instruction. Its table has one row for each of them,
/// in order: the address, and the lower and upper half of the instruction, which is that of the
/// program as far as that goes, and `0xc0001073` behind it.
pub proof fn law_rom_table_in_order(image: Vec<u32>, bits: u32, i: int)
    requires
        0 < bits < 48,
        0 <= i < TableContent::Program(image, bits).rows(),
    ensures
        ({
            let table = TableContent::Program(image, bits);
            let (address, low, high) = table.row_at(i);
            &&& 4 * table.rows() == vstd::arithmetic::power2::pow2((16 + bits) as nat)
            &&& address == 4 * i
            &&& 0 <= low < 0x1_0000
            &&& 0 <= high < 0x1_0000
            &&& i < image@.len() ==> 0x1_0000 * high + low == image@[i]
            &&& i >= image@.len() ==> 0x1_0000 * high + low == 0xc000_1073
        }),
{
    vstd::arithmetic::power2::lemma_pow2_adds((14 + bits) as nat, 2);
    vstd::arithmetic::power2::lemma2_to64();
    let n = vstd::arithmetic::power2::pow2((14 + bits) as nat);
    assert(n * 4 == 4 * n);
}

/// A padded program begins with the program, and `0xc0001073` fills the rest.
pub proof fn law_padding(program: Seq<u32>, i: int)
    ensures
        0 <= i < program.len() ==> lookup::instruction_at(program, i) == program[i],
        i >= program.len() ==> lookup::instruction_at(program, i) == 0xc000_1073,
{
}

} // verus!
