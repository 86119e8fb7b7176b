//! What is gathered from a traced execution: the last value of every register, the words that
//! were touched, and the delegation requests that were not yet filed.
use crate::trace::execution::RAM_SIZE;
use vstd::prelude::*;

verus! {

/// The last value of a register and when it was last used.
#[derive(Clone, Copy, Debug, PartialEq, Eq, Hash)]
pub struct FinalRegisterValue {
    pub value: u32,
    pub last_access_timestamp: u64,
}

/// Joins the values of the registers with the times of their last use.
pub fn final_register_values(registers: &[u32; 32], timestamps: &[u64; 32]) -> (r: Vec<
    FinalRegisterValue,
>)
    ensures
        r@ == Seq::new(
            32,
            |i: int|
                FinalRegisterValue {
                    value: registers@[i],
                    last_access_timestamp: timestamps@[i],
                },
        ),
{
    let mut r: Vec<FinalRegisterValue> = Vec::with_capacity(32);
    let mut i: usize = 0;
    while i < 32
        invariant
            i <= 32,
            r@.len() == i,
            forall|j: int|
                0 <= j < i ==> #[trigger] r@[j] == (FinalRegisterValue {
                    value: registers@[j],
                    last_access_timestamp: timestamps@[j],
                }),
        decreases 32 - i,
    {
        r.push(
            FinalRegisterValue { value: registers[i], last_access_timestamp: timestamps[i] },
        );
        i = i + 1;
    }
    r
}

/// A touched word: its address, when it was last used, and its last value.
pub type TouchedWord = (u32, (u64, u32));

/// Whether bit `word_idx` of a mask is set.
pub open spec fn is_touched(mask: Seq<u64>, word_idx: int) -> bool {
    (mask[word_idx / 64] >> ((word_idx % 64) as u64)) & 1 == 1
}

/// The entry of the word `word_idx`.
pub open spec fn entry(ram: Seq<u32>, timestamps: Seq<u64>, word_idx: int) -> TouchedWord {
    ((4 * word_idx) as u32, (timestamps[word_idx], ram[word_idx]))
}

/// The entries of the touched words from `from` on and before `to`.
pub open spec fn touched_words(
    mask: Seq<u64>,
    ram: Seq<u32>,
    timestamps: Seq<u64>,
    from: int,
    to: int,
) -> Seq<TouchedWord>
    decreases to - from,
{
    if to <= from {
        seq![]
    } else {
        let before = touched_words(mask, ram, timestamps, from, to - 1);
        if is_touched(mask, to - 1) {
            before.push(entry(ram, timestamps, to - 1))
        } else {
            before
        }
    }
}

/// What a tracer can have recorded of a memory: it has a time for every word, and marks no word
/// beyond the memory.
pub open spec fn is_record(mask: Seq<u64>, ram: Seq<u32>, timestamps: Seq<u64>) -> bool {
    &&& ram.len() <= RAM_SIZE / 4
    &&& timestamps.len() == ram.len()
    &&& mask.len() * 64 <= RAM_SIZE
    &&& forall|i: int|
        0 <= i < mask.len() * 64 && #[trigger] is_touched(mask, i) ==> i < ram.len()
}

/// Decides whether a bit is set.
fn bit_is_set(word: u64, bit_idx: u64) -> (r: bool)
    requires
        bit_idx < 64,
    ensures
        r == ((word >> bit_idx) & 1 == 1),
{
    (word >> bit_idx) & 1 == 1
}

/// Collects the touched words of the `count` mask words from `start` on.
pub fn collect_touched_words(
    access_bitmask: &[u64],
    ram: &[u32],
    timestamps: &[u64],
    start: usize,
    count: usize,
) -> (r: Vec<TouchedWord>)
    requires
        is_record(access_bitmask@, ram@, timestamps@),
        start + count <= access_bitmask@.len(),
    ensures
        r@ == touched_words(
            access_bitmask@,
            ram@,
            timestamps@,
            64 * start as int,
            64 * (start + count),
        ),
{
    let mut r: Vec<TouchedWord> = Vec::new();
    let mut idx: usize = start;
    while idx < start + count
        invariant
            is_record(access_bitmask@, ram@, timestamps@),
            start <= idx <= start + count <= access_bitmask@.len(),
            r@ == touched_words(
                access_bitmask@,
                ram@,
                timestamps@,
                64 * start as int,
                64 * idx as int,
            ),
        decreases start + count - idx,
    {
        let word: u64 = access_bitmask[idx];
        let mut bit_idx: u64 = 0;
        while bit_idx < 64
            invariant
                is_record(access_bitmask@, ram@, timestamps@),
                start <= idx < access_bitmask@.len(),
                bit_idx <= 64,
                word == access_bitmask@[idx as int],
                r@ == touched_words(
                    access_bitmask@,
                    ram@,
                    timestamps@,
                    64 * start as int,
                    64 * idx + bit_idx,
                ),
            decreases 64 - bit_idx,
        {
            let word_idx: usize = idx * 64 + bit_idx as usize;
            assert(word_idx / 64 == idx);
            assert(word_idx % 64 == bit_idx);
            let used = bit_is_set(word, bit_idx);
            assert(used == is_touched(access_bitmask@, word_idx as int));
            if used {
                let phys_address: u32 = (word_idx as u32) * 4;
                r.push((phys_address, (timestamps[word_idx], ram[word_idx])));
            }
            bit_idx = bit_idx + 1;
        }
        idx = idx + 1;
    }
    r
}

/// The sum of the first `n` sizes.
pub open spec fn total(sizes: Seq<usize>, n: int) -> int
    decreases n,
{
    if n <= 0 {
        0
    } else {
        total(sizes, n - 1) + sizes[n - 1]
    }
}

proof fn lemma_total_grows(sizes: Seq<usize>, m: int, n: int)
    requires
        m <= n,
    ensures
        total(sizes, m) <= total(sizes, n),
    decreases n - m,
{
    if m < n {
        lemma_total_grows(sizes, m, n - 1);
    }
}

/// Collects the touched words in consecutive ranges of the given sizes.
pub fn split_touched_words(
    access_bitmask: &[u64],
    ram: &[u32],
    timestamps: &[u64],
    sizes: &[usize],
) -> (r: Vec<Vec<TouchedWord>>)
    requires
        is_record(access_bitmask@, ram@, timestamps@),
        total(sizes@, sizes@.len() as int) == access_bitmask@.len(),
    ensures
        r@.len() == sizes@.len(),
        forall|i: int|
            0 <= i < sizes@.len() ==> #[trigger] r@[i]@ == touched_words(
                access_bitmask@,
                ram@,
                timestamps@,
                64 * total(sizes@, i),
                64 * total(sizes@, i + 1),
            ),
{
    let mut r: Vec<Vec<TouchedWord>> = Vec::new();
    let mut start: usize = 0;
    let mut i: usize = 0;
    while i < sizes.len()
        invariant
            is_record(access_bitmask@, ram@, timestamps@),
            total(sizes@, sizes@.len() as int) == access_bitmask@.len(),
            i <= sizes@.len(),
            start == total(sizes@, i as int),
            r@.len() == i,
            forall|j: int|
                0 <= j < i ==> #[trigger] r@[j]@ == touched_words(
                    access_bitmask@,
                    ram@,
                    timestamps@,
                    64 * total(sizes@, j),
                    64 * total(sizes@, j + 1),
                ),
        decreases sizes@.len() - i,
    {
        proof {
            lemma_total_grows(sizes@, i + 1, sizes@.len() as int);
        }
        let length: usize = access_bitmask.len();
        assert(start + sizes@[i as int] <= length);
        let part = collect_touched_words(access_bitmask, ram, timestamps, start, sizes[i]);
        r.push(part);
        start = start + sizes[i];
        i = i + 1;
    }
    r
}

/// The touched words of two neighbouring ranges are those of the range that they make up.
pub proof fn law_ranges_join(
    mask: Seq<u64>,
    ram: Seq<u32>,
    timestamps: Seq<u64>,
    from: int,
    middle: int,
    to: int,
)
    requires
        from <= middle <= to,
    ensures
        touched_words(mask, ram, timestamps, from, to) == touched_words(
            mask,
            ram,
            timestamps,
            from,
            middle,
        ) + touched_words(mask, ram, timestamps, middle, to),
    decreases to - middle,
{
    let first = touched_words(mask, ram, timestamps, from, middle);
    if middle == to {
        assert(first + Seq::<TouchedWord>::empty() =~= first);
    } else {
        law_ranges_join(mask, ram, timestamps, from, middle, to - 1);
        let second = touched_words(mask, ram, timestamps, middle, to - 1);
        let last = entry(ram, timestamps, to - 1);
        assert((first + second).push(last) =~= first + second.push(last));
    }
}

/// However the mask is cut into ranges, the parts put together list all touched words.
pub proof fn law_split_loses_nothing(
    mask: Seq<u64>,
    ram: Seq<u32>,
    timestamps: Seq<u64>,
    sizes: Seq<usize>,
    parts: Seq<Seq<TouchedWord>>,
)
    requires
        parts.len() == sizes.len(),
        forall|i: int|
            0 <= i < parts.len() ==> #[trigger] parts[i] == touched_words(
                mask,
                ram,
                timestamps,
                64 * total(sizes, i),
                64 * total(sizes, i + 1),
            ),
    ensures
        parts.flatten() == touched_words(
            mask,
            ram,
            timestamps,
            0,
            64 * total(sizes, sizes.len() as int),
        ),
    decreases parts.len(),
{
    if parts.len() == 0 {
    } else {
        let n = parts.len() - 1;
        let fewer = parts.drop_last();
        let sizes_before = sizes.drop_last();
        assert forall|i: int| 0 <= i <= n implies #[trigger] total(sizes_before, i) == total(
            sizes,
            i,
        ) by {
            lemma_total_of_prefix(sizes, i);
        }
        assert forall|i: int| 0 <= i < fewer.len() implies #[trigger] fewer[i] == touched_words(
            mask,
            ram,
            timestamps,
            64 * total(sizes_before, i),
            64 * total(sizes_before, i + 1),
        ) by {
            assert(parts[i] == fewer[i]);
        }
        law_split_loses_nothing(mask, ram, timestamps, sizes_before, fewer);
        assert(parts[n] == parts.last());
        lemma_total_grows(sizes, 0, n);
        lemma_total_grows(sizes, n, n + 1);
        law_ranges_join(
            mask,
            ram,
            timestamps,
            0,
            64 * total(sizes, n),
            64 * total(sizes, n + 1),
        );
        assert(parts =~= fewer.push(parts.last()));
        fewer.lemma_flatten_push(parts.last());
    }
}

proof fn lemma_total_of_prefix(sizes: Seq<usize>, n: int)
    requires
        0 <= n < sizes.len(),
    ensures
        total(sizes.drop_last(), n) == total(sizes, n),
    decreases n,
{
    if n > 0 {
        lemma_total_of_prefix(sizes, n - 1);
    }
}

/// The touched words come in ascending order of their addresses, each once, and none is missing.
pub proof fn law_touched_words_ascend(
    mask: Seq<u64>,
    ram: Seq<u32>,
    timestamps: Seq<u64>,
    from: int,
    to: int,
)
    requires
        0 <= from <= to <= RAM_SIZE,
    ensures
        ({
            let words = touched_words(mask, ram, timestamps, from, to);
            &&& forall|i: int, j: int|
                0 <= i < j < words.len() ==> (#[trigger] words[i]).0 < (#[trigger] words[j]).0
            &&& forall|i: int|
                0 <= i < words.len() ==> 4 * from <= (#[trigger] words[i]).0 < 4 * to && words[i].0
                    % 4 == 0 && is_touched(mask, words[i].0 as int / 4)
            &&& forall|w: int|
                from <= w < to && #[trigger] is_touched(mask, w) ==> words.contains(
                    entry(ram, timestamps, w),
                )
        }),
    decreases to - from,
{
    if from < to {
        law_touched_words_ascend(mask, ram, timestamps, from, to - 1);
        let before = touched_words(mask, ram, timestamps, from, to - 1);
        let words = touched_words(mask, ram, timestamps, from, to);
        assert forall|w: int| from <= w < to && #[trigger] is_touched(mask, w) implies
            words.contains(entry(ram, timestamps, w)) by {
            let e = entry(ram, timestamps, w);
            if w == to - 1 {
                assert(words.last() == e);
            } else {
                let i = choose|i: int| 0 <= i < before.len() && before[i] == e;
                assert(words[i] == e);
            }
        }
    }
}

/// Every touched word is listed by its address in bytes, with the time of its last use and its last
/// value; a word is touched if its bit is set, 64 of them in each word of the mask, the lowest
/// first.
pub proof fn law_touched_words_are_told_faithfully(
    mask: Seq<u64>,
    ram: Seq<u32>,
    timestamps: Seq<u64>,
    from: int,
    to: int,
    i: int,
)
    requires
        0 <= from <= to <= RAM_SIZE,
    ensures
        ({
            let words = touched_words(mask, ram, timestamps, from, to);
            0 <= i < words.len() ==> {
                let (address, (timestamp, value)) = words[i];
                let w = address as int / 4;
                &&& address % 4 == 0
                &&& from <= w < to
                &&& timestamp == timestamps[w]
                &&& value == ram[w]
                &&& (mask[w / 64] >> ((w % 64) as u64)) & 1 == 1
            }
        }),
        from <= i < to && (mask[i / 64] >> ((i % 64) as u64)) & 1 == 1 ==> touched_words(
            mask,
            ram,
            timestamps,
            from,
            to,
        ).contains(((4 * i) as u32, (timestamps[i], ram[i]))),
    decreases to - from,
{
    law_touched_words_ascend(mask, ram, timestamps, from, to);
    if from < to {
        law_touched_words_are_told_faithfully(mask, ram, timestamps, from, to - 1, i);
    }
    if from <= i < to && (mask[i / 64] >> ((i % 64) as u64)) & 1 == 1 {
        assert(is_touched(mask, i));
        assert(entry(ram, timestamps, i) == ((4 * i) as u32, (timestamps[i], ram[i])));
    }
}

/// Sizes add up: without any the sum is zero, and each adds to it.
pub proof fn law_sizes_add_up(sizes: Seq<usize>, n: int)
    ensures
        total(sizes, 0) == 0,
        0 <= n < sizes.len() ==> total(sizes, n + 1) == total(sizes, n) + sizes[n],
{
}

} // verus!
