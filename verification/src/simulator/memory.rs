//! Memory accesses of sub-word size, and a memory whose lower part is read-only.
use crate::simulator::abstractions::MemorySource;
use vstd::prelude::*;

verus! {

/// The byte at offset `i` of a little-endian word.
pub open spec fn byte_of(word: u32, i: int) -> int {
    if i == 0 {
        word as int % 0x100
    } else if i == 1 {
        (word as int / 0x100) % 0x100
    } else if i == 2 {
        (word as int / 0x1_0000) % 0x100
    } else {
        word as int / 0x100_0000
    }
}

/// The little-endian word made of four bytes.
pub open spec fn word_of_bytes(b0: int, b1: int, b2: int, b3: int) -> u32 {
    (b0 + b1 * 0x100 + b2 * 0x1_0000 + b3 * 0x100_0000) as u32
}

/// The `length` bytes of `word` that start at `offset`.
#[verifier::opaque]
pub open spec fn sub_word(word: u32, offset: int, length: int) -> u32 {
    if length == 1 {
        byte_of(word, offset) as u32
    } else if length == 2 {
        (byte_of(word, offset) + byte_of(word, offset + 1) * 0x100) as u32
    } else {
        word
    }
}

/// The byte at offset `i` of `word` after its `length` bytes that start at `offset` were replaced
/// by the low bytes of `value`.
pub open spec fn byte_after(word: u32, offset: int, length: int, value: u32, i: int) -> int {
    if offset <= i < offset + length {
        byte_of(value, i - offset)
    } else {
        byte_of(word, i)
    }
}

/// `word` with the `length` bytes that start at `offset` replaced by the low bytes of `value`.
#[verifier::opaque]
pub open spec fn replace_sub_word(word: u32, offset: int, length: int, value: u32) -> u32 {
    word_of_bytes(
        byte_after(word, offset, length, value, 0),
        byte_after(word, offset, length, value, 1),
        byte_after(word, offset, length, value, 2),
        byte_after(word, offset, length, value, 3),
    )
}

/// A word is made of its bytes, and the bytes of a word are those it is made of.
pub proof fn lemma_word_of_bytes(word: u32, b0: int, b1: int, b2: int, b3: int)
    requires
        0 <= b0 < 0x100,
        0 <= b1 < 0x100,
        0 <= b2 < 0x100,
        0 <= b3 < 0x100,
    ensures
        word == byte_of(word, 0) + byte_of(word, 1) * 0x100 + byte_of(word, 2) * 0x1_0000 + byte_of(
            word,
            3,
        ) * 0x100_0000,
        byte_of(word_of_bytes(b0, b1, b2, b3), 0) == b0,
        byte_of(word_of_bytes(b0, b1, b2, b3), 1) == b1,
        byte_of(word_of_bytes(b0, b1, b2, b3), 2) == b2,
        byte_of(word_of_bytes(b0, b1, b2, b3), 3) == b3,
        word_of_bytes(b0, b1, b2, b3) == b0 + b1 * 0x100 + b2 * 0x1_0000 + b3 * 0x100_0000,
{
    assert(word == word % 0x100 + ((word / 0x100) % 0x100) * 0x100 + ((word / 0x1_0000) % 0x100)
        * 0x1_0000 + (word / 0x100_0000) * 0x100_0000) by (bit_vector);
    let v = b0 + b1 * 0x100 + b2 * 0x1_0000 + b3 * 0x100_0000;
    assert(v % 0x100 == b0);
    assert(v / 0x100 == b1 + b2 * 0x100 + b3 * 0x1_0000);
    assert(v / 0x1_0000 == b2 + b3 * 0x100);
    assert(v / 0x100_0000 == b3);
}

/// Whether an access of `length` bytes at `address` is naturally aligned.
pub open spec fn is_aligned_access(address: u64, length: u32) -> bool {
    ||| length == 1
    ||| length == 2 && address % 2 == 0
    ||| length == 4 && address % 4 == 0
}

/// The address of the word that holds the byte at `address`.
pub open spec fn word_address(address: u64) -> u64 {
    (address - address % 4) as u64
}

fn bytes_at(word: u32, offset: u64, length: u32) -> (r: u32)
    requires
        offset < 4,
        is_aligned_access(offset, length),
    ensures
        r == sub_word(word, offset as int, length as int),
{
    proof {
        reveal(sub_word);
        lemma_word_of_bytes(word, 0, 0, 0, 0);
    }
    if length == 4 {
        word
    } else if length == 2 {
        if offset == 0 {
            word % 0x1_0000
        } else {
            word / 0x1_0000
        }
    } else if offset == 0 {
        word % 0x100
    } else if offset == 1 {
        (word / 0x100) % 0x100
    } else if offset == 2 {
        (word / 0x1_0000) % 0x100
    } else {
        word / 0x100_0000
    }
}

fn with_bytes_at(word: u32, offset: u64, length: u32, value: u32) -> (r: u32)
    requires
        offset < 4,
        is_aligned_access(offset, length),
    ensures
        r == replace_sub_word(word, offset as int, length as int, value),
{
    proof {
        reveal(sub_word);
        reveal(replace_sub_word);
        lemma_word_of_bytes(word, 0, 0, 0, 0);
        lemma_word_of_bytes(value, 0, 0, 0, 0);
    }
    let old_part: u32 = bytes_at(word, offset, length);
    let new_part: u32 = bytes_at(value, 0, length);
    if length == 4 {
        value
    } else if offset == 0 {
        word - old_part + new_part
    } else if offset == 1 {
        word - old_part * 0x100 + new_part * 0x100
    } else if offset == 2 {
        word - old_part * 0x1_0000 + new_part * 0x1_0000
    } else {
        word - old_part * 0x100_0000 + new_part * 0x100_0000
    }
}

/// Reads `num_bytes` bytes; returns the whole word that holds them, and the bytes.
pub fn mem_read<M: MemorySource>(memory_source: &M, address: u64, num_bytes: u32) -> (r: (u32, u32))
    requires
        is_aligned_access(address, num_bytes),
        memory_source.words().contains_key(word_address(address)),
    ensures
        r.0 == memory_source.words()[word_address(address)],
        r.1 == sub_word(r.0, (address % 4) as int, num_bytes as int),
{
    let offset: u64 = address % 4;
    let word: u32 = memory_source.get(address - offset);
    (word, bytes_at(word, offset, num_bytes))
}

/// Writes the low `num_bytes` bytes of `value`; returns the word that holds them before and after.
pub fn mem_write<M: MemorySource>(
    memory_source: &mut M,
    address: u64,
    value: u32,
    num_bytes: u32,
) -> (r: (u32, u32))
    requires
        is_aligned_access(address, num_bytes),
        old(memory_source).words().contains_key(word_address(address)),
        old(memory_source).writable().contains(word_address(address)),
    ensures
        r.0 == old(memory_source).words()[word_address(address)],
        r.1 == replace_sub_word(r.0, (address % 4) as int, num_bytes as int, value),
        final(memory_source).words() == old(memory_source).words().insert(
            word_address(address),
            r.1,
        ),
        final(memory_source).writable() == old(memory_source).writable(),
{
    let offset: u64 = address % 4;
    let word: u32 = memory_source.get(address - offset);
    let updated: u32 = with_bytes_at(word, offset, num_bytes, value);
    memory_source.set(address - offset, updated);
    (word, updated)
}

/// What was written is what is read back.
pub proof fn law_written_bytes_are_read_back(word: u32, value: u32, offset: int, length: int)
    requires
        0 <= offset < 4,
        length == 1 || length == 2 && offset % 2 == 0 || length == 4 && offset == 0,
    ensures
        sub_word(replace_sub_word(word, offset, length, value), offset, length) == sub_word(
            value,
            0,
            length,
        ),
{
    reveal(sub_word);
    reveal(replace_sub_word);
    lemma_word_of_bytes(value, 0, 0, 0, 0);
    lemma_word_of_bytes(
        word,
        byte_after(word, offset, length, value, 0),
        byte_after(word, offset, length, value, 1),
        byte_after(word, offset, length, value, 2),
        byte_after(word, offset, length, value, 3),
    );
}

/// The bytes of a word that are not written do not change.
pub proof fn law_other_bytes_do_not_change(
    word: u32,
    value: u32,
    offset: int,
    length: int,
    other: int,
)
    requires
        0 <= offset < 4,
        length == 1 || length == 2 && offset % 2 == 0 || length == 4 && offset == 0,
        0 <= other < 4,
        other < offset || other >= offset + length,
    ensures
        sub_word(replace_sub_word(word, offset, length, value), other, 1) == sub_word(
            word,
            other,
            1,
        ),
{
    reveal(sub_word);
    reveal(replace_sub_word);
    lemma_word_of_bytes(
        word,
        byte_after(word, offset, length, value, 0),
        byte_after(word, offset, length, value, 1),
        byte_after(word, offset, length, value, 2),
        byte_after(word, offset, length, value, 3),
    );
}

/// Bytes stand in little-endian order: the byte at offset `i` of a word is its digit of weight
/// `256^i`, and two bytes at an even offset are the byte there plus 256 times the next one.
pub proof fn law_bytes_are_digits(word: u32)
    ensures
        sub_word(word, 0, 1) == word as int % 0x100,
        sub_word(word, 1, 1) == (word as int / 0x100) % 0x100,
        sub_word(word, 2, 1) == (word as int / 0x1_0000) % 0x100,
        sub_word(word, 3, 1) == word as int / 0x100_0000,
        sub_word(word, 0, 2) == word as int % 0x1_0000,
        sub_word(word, 2, 2) == word as int / 0x1_0000,
        sub_word(word, 0, 4) == word,
        sub_word(word, 0, 2) == sub_word(word, 0, 1) + 0x100 * sub_word(word, 1, 1),
        sub_word(word, 2, 2) == sub_word(word, 2, 1) + 0x100 * sub_word(word, 3, 1),
{
    reveal(sub_word);
    lemma_word_of_bytes(word, 0, 0, 0, 0);
}

/// A write of bytes changes the digits of the word that they stand for, and no others.
pub proof fn law_written_bytes_are_digits(word: u32, value: u32)
    ensures
        ({
            let (w, v) = (word as int, value as int);
            &&& replace_sub_word(word, 0, 1, value) == w - w % 0x100 + v % 0x100
            &&& replace_sub_word(word, 1, 1, value) == w - 0x100 * ((w / 0x100) % 0x100) + 0x100 * (v
                % 0x100)
            &&& replace_sub_word(word, 2, 1, value) == w - 0x1_0000 * ((w / 0x1_0000) % 0x100)
                + 0x1_0000 * (v % 0x100)
            &&& replace_sub_word(word, 3, 1, value) == w % 0x100_0000 + 0x100_0000 * (v % 0x100)
            &&& replace_sub_word(word, 0, 2, value) == w - w % 0x1_0000 + v % 0x1_0000
            &&& replace_sub_word(word, 2, 2, value) == w % 0x1_0000 + 0x1_0000 * (v % 0x1_0000)
            &&& replace_sub_word(word, 0, 4, value) == v
        }),
{
    reveal(replace_sub_word);
    lemma_word_of_bytes(word, 0, 0, 0, 0);
    lemma_word_of_bytes(value, 0, 0, 0, 0);
}

/// Bytes may be accessed one by one, in twos from an even address, and in fours from a multiple of
/// four; they lie in the word at the greatest multiple of four that is not above them.
pub proof fn law_accesses_stay_within_a_word(address: u64, length: u32)
    ensures
        is_aligned_access(address, length) <==> (length == 1 || length == 2 || length == 4)
            && address as int % length as int == 0,
        word_address(address) % 4 == 0,
        word_address(address) <= address < word_address(address) + 4,
        is_aligned_access(address, length) ==> address + length <= word_address(address) + 4,
{
}

/// A memory whose first bytes hold the program and cannot be overwritten by it.
pub struct VectorMemoryImplWithRom {
    inner: Vec<u32>,
    rom_words: usize,
}

impl VectorMemoryImplWithRom {
    /// The words, in address order.
    pub closed spec fn contents(&self) -> Seq<u32> {
        self.inner@
    }

    /// How many of the first words are read-only.
    pub closed spec fn rom_size(&self) -> int {
        self.rom_words as int
    }

    pub proof fn lemma_rom_size(&self)
        ensures
            self.rom_size() >= 0,
    {
    }

    /// A zeroed memory of `byte_size` bytes, the first `rom_bound` of which are read-only.
    pub fn new_for_byte_size(byte_size: usize, rom_bound: usize) -> (r: Self)
        requires
            byte_size % 4 == 0,
            rom_bound % 4 == 0,
            rom_bound <= byte_size,
        ensures
            r.contents() == Seq::new((byte_size / 4) as nat, |i: int| 0u32),
            r.rom_size() == rom_bound / 4,
    {
        let inner: Vec<u32> = vec![0u32;byte_size / 4];
        assert(inner@ =~= Seq::new((byte_size / 4) as nat, |i: int| 0u32));
        VectorMemoryImplWithRom { inner, rom_words: rom_bound / 4 }
    }

    /// Places a word, in the read-only part too.
    pub fn populate(&mut self, address: u32, value: u32)
        requires
            address % 4 == 0,
            address / 4 < old(self).contents().len(),
        ensures
            final(self).contents() == old(self).contents().update((address / 4) as int, value),
            final(self).rom_size() == old(self).rom_size(),
    {
        self.inner.set((address / 4) as usize, value);
    }

    /// Number of words.
    pub fn num_words(&self) -> (r: usize)
        ensures
            r == self.contents().len(),
    {
        self.inner.len()
    }

    /// The words, with the read-only part blanked out.
    pub fn get_final_ram_state(self) -> (r: Vec<u32>)
        ensures
            r@ == Seq::new(
                self.contents().len(),
                |i: int|
                    if i < self.rom_size() {
                        0u32
                    } else {
                        self.contents()[i]
                    },
            ),
    {
        let rom_words: usize = self.rom_words;
        let mut words: Vec<u32> = self.inner;
        let mut i: usize = 0;
        while i < rom_words && i < words.len()
            invariant
                rom_words == self.rom_size(),
                words@.len() == self.contents().len(),
                i <= words@.len(),
                i <= rom_words,
                forall|j: int|
                    0 <= j < words@.len() ==> words@[j] == if j < i {
                        0u32
                    } else {
                        self.contents()[j]
                    },
            decreases rom_words - i,
        {
            words.set(i, 0);
            i = i + 1;
        }
        words
    }
}

/// The words of a memory by their addresses.
pub open spec fn words_by_address(contents: Seq<u32>) -> Map<u64, u32> {
    Map::new(
        |a: u64| a % 4 == 0 && a / 4 < contents.len(),
        |a: u64| contents[(a / 4) as int],
    )
}

impl MemorySource for VectorMemoryImplWithRom {
    open spec fn words(&self) -> Map<u64, u32> {
        words_by_address(self.contents())
    }

    open spec fn writable(&self) -> Set<u64> {
        Set::new(|a: u64| a / 4 >= self.rom_size())
    }

    fn can_read(&self, phys_address: u64) -> (r: bool) {
        phys_address % 4 == 0 && phys_address / 4 < self.inner.len() as u64
    }

    fn can_write(&self, phys_address: u64) -> (r: bool) {
        phys_address % 4 == 0 && phys_address / 4 < self.inner.len() as u64 && phys_address / 4
            >= self.rom_words as u64
    }

    fn get(&self, phys_address: u64) -> (r: u32) {
        let length: usize = self.inner.len();
        assert(phys_address / 4 < length);
        self.inner[(phys_address / 4) as usize]
    }

    fn set(&mut self, phys_address: u64, value: u32) {
        let length: usize = self.inner.len();
        assert(phys_address / 4 < length);
        self.inner.set((phys_address / 4) as usize, value);
        assert forall|a: u64|
            self.words().contains_key(a) && a != phys_address implies #[trigger] self.words()[a]
            == old(self).words()[a] by {
            assert(a / 4 != phys_address / 4);
        }
        assert(self.words() =~= old(self).words().insert(phys_address, value));
        assert(self.writable() =~= old(self).writable());
    }
}

/// A memory has a word at every multiple of four below its size, in the order of the words, and none
/// elsewhere. The program may write all of them but those of the read-only part, which come first.
pub proof fn law_memory_by_address(m: VectorMemoryImplWithRom, address: u64)
    ensures
        m.words().contains_key(address) <==> address % 4 == 0 && address < 4 * m.contents().len(),
        m.words().contains_key(address) ==> m.words()[address] == m.contents()[address as int / 4],
        address % 4 == 0 ==> (m.writable().contains(address) <==> address >= 4 * m.rom_size()),
{
}

} // verus!
