//! Numbers as text: decimal numbers, and words as eight hexadecimal digits.
use vstd::prelude::*;

verus! {

/// `String::push` appends a character.
pub assume_specification[ String::push ](s: &mut String, c: char)
    ensures
        final(s)@ == old(s)@.push(c),
;

/// The character of a digit below sixteen.
pub open spec fn digit(d: int, upper: bool) -> char {
    if d == 0 {
        '0'
    } else if d == 1 {
        '1'
    } else if d == 2 {
        '2'
    } else if d == 3 {
        '3'
    } else if d == 4 {
        '4'
    } else if d == 5 {
        '5'
    } else if d == 6 {
        '6'
    } else if d == 7 {
        '7'
    } else if d == 8 {
        '8'
    } else if d == 9 {
        '9'
    } else if d == 10 {
        if upper {
            'A'
        } else {
            'a'
        }
    } else if d == 11 {
        if upper {
            'B'
        } else {
            'b'
        }
    } else if d == 12 {
        if upper {
            'C'
        } else {
            'c'
        }
    } else if d == 13 {
        if upper {
            'D'
        } else {
            'd'
        }
    } else if d == 14 {
        if upper {
            'E'
        } else {
            'e'
        }
    } else {
        if upper {
            'F'
        } else {
            'f'
        }
    }
}

/// The character of a digit below sixteen.
fn digit_char(d: u32, upper: bool) -> (r: char)
    requires
        d < 16,
    ensures
        r == digit(d as int, upper),
{
    match d {
        0 => '0',
        1 => '1',
        2 => '2',
        3 => '3',
        4 => '4',
        5 => '5',
        6 => '6',
        7 => '7',
        8 => '8',
        9 => '9',
        10 => if upper {
            'A'
        } else {
            'a'
        },
        11 => if upper {
            'B'
        } else {
            'b'
        },
        12 => if upper {
            'C'
        } else {
            'c'
        },
        13 => if upper {
            'D'
        } else {
            'd'
        },
        14 => if upper {
            'E'
        } else {
            'e'
        },
        _ => if upper {
            'F'
        } else {
            'f'
        },
    }
}

/// The digit that a character stands for, in upper or lower case.
pub open spec fn digit_value(c: char) -> Option<int> {
    if exists|d: int| is_digit(c, d) {
        Some(choose|d: int| is_digit(c, d))
    } else {
        None
    }
}

/// Whether a character stands for the digit `d`.
pub open spec fn is_digit(c: char, d: int) -> bool {
    0 <= d < 16 && (c == digit(d, true) || c == digit(d, false))
}

/// A character stands for one digit at most.
proof fn lemma_digit_is_unique(c: char, d: int)
    requires
        is_digit(c, d),
    ensures
        digit_value(c) == Some(d),
{
}

/// The digit that a character stands for.
fn digit_of(c: char) -> (r: Option<u32>)
    ensures
        match r {
            Some(d) => digit_value(c) == Some(d as int),
            None => digit_value(c) is None,
        },
{
    let mut d: u32 = 0;
    while d < 16
        invariant
            d <= 16,
            forall|e: int| 0 <= e < d ==> !is_digit(c, e),
        decreases 16 - d,
    {
        if c == digit_char(d, true) || c == digit_char(d, false) {
            proof {
                lemma_digit_is_unique(c, d as int);
            }
            return Some(d);
        }
        d = d + 1;
    }
    None
}

/// A number in decimal.
pub open spec fn decimal(n: nat) -> Seq<char>
    decreases n,
{
    if n < 10 {
        seq![digit(n as int, false)]
    } else {
        decimal(n / 10).push(digit((n % 10) as int, false))
    }
}

/// Appends a number in decimal.
pub fn append_decimal(s: &mut String, n: u64)
    ensures
        final(s)@ == old(s)@ + decimal(n as nat),
    decreases n,
{
    let ghost before = s@;
    if n >= 10 {
        append_decimal(s, n / 10);
        assert(before + decimal((n / 10) as nat).push(digit((n % 10) as int, false)) =~= (before
            + decimal((n / 10) as nat)).push(digit((n % 10) as int, false)));
    } else {
        assert(before + seq![digit(n as int, false)] =~= before.push(digit(n as int, false)));
    }
    s.push(digit_char((n % 10) as u32, false));
}

/// Different numbers have different decimals.
pub proof fn law_decimal_is_injective(m: nat, n: nat)
    requires
        decimal(m) == decimal(n),
    ensures
        m == n,
    decreases m,
{
    lemma_decimal_length(m);
    lemma_decimal_length(n);
    if m < 10 && n < 10 {
        assert(decimal(m)[0] == digit(m as int, false));
        assert(decimal(n)[0] == digit(n as int, false));
        lemma_digit_is_unique(digit(m as int, false), m as int);
        lemma_digit_is_unique(digit(n as int, false), n as int);
    } else if m >= 10 && n >= 10 {
        assert(decimal(m).last() == digit((m % 10) as int, false));
        assert(decimal(n).last() == digit((n % 10) as int, false));
        assert(decimal(m / 10) =~= decimal(m).drop_last());
        assert(decimal(n / 10) =~= decimal(n).drop_last());
        law_decimal_is_injective(m / 10, n / 10);
        lemma_digit_is_unique(digit((m % 10) as int, false), (m % 10) as int);
        lemma_digit_is_unique(digit((n % 10) as int, false), (n % 10) as int);
        assert(m % 10 == n % 10);
        assert(m == 10 * (m / 10) + m % 10);
        assert(n == 10 * (n / 10) + n % 10);
    }
}

/// A decimal has one digit exactly when the number is below ten.
proof fn lemma_decimal_length(n: nat)
    ensures
        decimal(n).len() >= 1,
        n < 10 ==> decimal(n).len() == 1,
        n >= 10 ==> decimal(n).len() >= 2,
    decreases n,
{
    if n >= 10 {
        lemma_decimal_length(n / 10);
    }
}

/// Whether a character is one of the ten decimal digits.
pub open spec fn is_decimal_digit(c: char) -> bool {
    exists|d: int| 0 <= d < 10 && c == #[trigger] digit(d, false)
}

/// A decimal consists of decimal digits.
pub proof fn law_decimal_digits(n: nat)
    ensures
        decimal(n).len() > 0,
        forall|i: int| 0 <= i < decimal(n).len() ==> is_decimal_digit(#[trigger] decimal(n)[i]),
    decreases n,
{
    if n >= 10 {
        law_decimal_digits(n / 10);
        assert(decimal(n).last() == digit((n % 10) as int, false));
        assert forall|i: int| 0 <= i < decimal(n).len() implies is_decimal_digit(
            #[trigger] decimal(n)[i],
        ) by {
            if i < decimal(n).len() - 1 {
                assert(decimal(n)[i] == decimal(n / 10)[i]);
            }
        }
    } else {
        assert(decimal(n)[0] == digit(n as int, false));
    }
}

/// The digit of a word at place `i`, counted from the highest.
pub open spec fn nibble(word: u32, i: int) -> int {
    if i == 0 {
        word as int / 0x1000_0000
    } else if i == 1 {
        word as int / 0x100_0000 % 16
    } else if i == 2 {
        word as int / 0x10_0000 % 16
    } else if i == 3 {
        word as int / 0x1_0000 % 16
    } else if i == 4 {
        word as int / 0x1000 % 16
    } else if i == 5 {
        word as int / 0x100 % 16
    } else if i == 6 {
        word as int / 0x10 % 16
    } else {
        word as int % 16
    }
}

/// Words as text, eight digits each.
pub open spec fn hex(words: Seq<u32>, upper: bool) -> Seq<char> {
    Seq::new(8 * words.len(), |i: int| digit(nibble(words[i / 8], i % 8), upper))
}

/// Appends a word as eight digits.
fn append_word(s: &mut String, word: u32, upper: bool)
    ensures
        final(s)@ == old(s)@ + Seq::new(8, |i: int| digit(nibble(word, i), upper)),
{
    let ghost before = s@;
    s.push(digit_char(word / 0x1000_0000, upper));
    s.push(digit_char(word / 0x100_0000 % 16, upper));
    s.push(digit_char(word / 0x10_0000 % 16, upper));
    s.push(digit_char(word / 0x1_0000 % 16, upper));
    s.push(digit_char(word / 0x1000 % 16, upper));
    s.push(digit_char(word / 0x100 % 16, upper));
    s.push(digit_char(word / 0x10 % 16, upper));
    s.push(digit_char(word % 16, upper));
    assert(s@ =~= before + Seq::new(8, |i: int| digit(nibble(word, i), upper)));
}

/// Words as text, eight digits each, in upper or in lower case.
pub fn hex_string(words: &[u32], upper: bool) -> (r: String)
    ensures
        r@ == hex(words@, upper),
{
    let mut s = String::new();
    let mut i: usize = 0;
    assert(s@ =~= hex(words@.take(0), upper));
    while i < words.len()
        invariant
            i <= words@.len(),
            s@ == hex(words@.take(i as int), upper),
        decreases words@.len() - i,
    {
        append_word(&mut s, words[i], upper);
        assert(s@ =~= hex(words@.take(i + 1), upper));
        i = i + 1;
    }
    assert(words@.take(i as int) =~= words@);
    s
}

/// Why a text is no list of words.
#[derive(Clone, Copy, Debug, PartialEq, Eq)]
pub enum HexFault {
    /// The number of characters is no multiple of eight.
    Length,
    /// A character is no hexadecimal digit.
    Digit,
}

/// Whether all characters are hexadecimal digits.
pub open spec fn all_digits(text: Seq<char>) -> bool {
    forall|i: int| 0 <= i < text.len() ==> digit_value(#[trigger] text[i]) is Some
}

/// The word that eight digits make up.
pub open spec fn word_at(text: Seq<char>, k: int) -> int {
    digit_value(text[8 * k])->0 * 0x1000_0000 + digit_value(text[8 * k + 1])->0 * 0x100_0000
        + digit_value(text[8 * k + 2])->0 * 0x10_0000 + digit_value(text[8 * k + 3])->0 * 0x1_0000
        + digit_value(text[8 * k + 4])->0 * 0x1000 + digit_value(text[8 * k + 5])->0 * 0x100
        + digit_value(text[8 * k + 6])->0 * 0x10 + digit_value(text[8 * k + 7])->0
}

/// The words of a text of hexadecimal digits.
pub open spec fn words_of(text: Seq<char>) -> Result<Seq<u32>, HexFault> {
    if text.len() % 8 != 0 {
        Err(HexFault::Length)
    } else if !all_digits(text) {
        Err(HexFault::Digit)
    } else {
        Ok(Seq::new(text.len() / 8, |k: int| word_at(text, k) as u32))
    }
}

/// The digit at a place of a text of digits.
fn digit_at(text: &Vec<char>, i: usize) -> (r: u32)
    requires
        i < text@.len(),
        all_digits(text@),
    ensures
        r < 16,
        r == digit_value(text@[i as int])->0,
{
    assert(digit_value(text@[i as int]) is Some);
    match digit_of(text[i]) {
        Some(d) => {
            assert(is_digit(text@[i as int], d as int));
            d
        },
        None => 0,
    }
}

/// The words of a text of hexadecimal digits, eight for each word.
pub fn u32_from_hex_string(text: &str) -> (r: Result<Vec<u32>, HexFault>)
    ensures
        match r {
            Ok(words) => words_of(text@) == Ok::<Seq<u32>, HexFault>(words@),
            Err(fault) => words_of(text@) == Err::<Seq<u32>, HexFault>(fault),
        },
{
    let chars: Vec<char> = chars_of(text);
    if chars.len() % 8 != 0 {
        return Err(HexFault::Length);
    }
    let mut i: usize = 0;
    while i < chars.len()
        invariant
            chars@ == text@,
            chars@.len() % 8 == 0,
            i <= chars@.len(),
            forall|j: int| 0 <= j < i ==> digit_value(#[trigger] chars@[j]) is Some,
        decreases chars@.len() - i,
    {
        if digit_of(chars[i]).is_none() {
            assert(digit_value(text@[i as int]) is None);
            assert(!all_digits(text@));
            return Err(HexFault::Digit);
        }
        i = i + 1;
    }
    let mut words: Vec<u32> = Vec::new();
    let mut k: usize = 0;
    while k < chars.len() / 8
        invariant
            chars@ == text@,
            all_digits(chars@),
            chars@.len() % 8 == 0,
            k <= chars@.len() / 8,
            words@.len() == k,
            forall|j: int| 0 <= j < k ==> #[trigger] words@[j] == word_at(chars@, j) as u32,
        decreases chars@.len() / 8 - k,
    {
        let at: usize = 8 * k;
        let word: u32 = digit_at(&chars, at) * 0x1000_0000 + digit_at(&chars, at + 1) * 0x100_0000
            + digit_at(&chars, at + 2) * 0x10_0000 + digit_at(&chars, at + 3) * 0x1_0000 + digit_at(
            &chars,
            at + 4,
        ) * 0x1000 + digit_at(&chars, at + 5) * 0x100 + digit_at(&chars, at + 6) * 0x10 + digit_at(
            &chars,
            at + 7,
        );
        words.push(word);
        k = k + 1;
    }
    assert(words@ =~= Seq::new(text@.len() / 8, |k: int| word_at(text@, k) as u32));
    Ok(words)
}

/// Words that were written as text are read back.
pub proof fn law_hex_round_trip(words: Seq<u32>, upper: bool)
    ensures
        words_of(hex(words, upper)) == Ok::<Seq<u32>, HexFault>(words),
{
    let text = hex(words, upper);
    assert forall|i: int| 0 <= i < text.len() implies digit_value(#[trigger] text[i]) == Some(
        nibble(words[i / 8], i % 8),
    ) by {
        lemma_nibble_range(words[i / 8], i % 8);
        lemma_digit_is_unique(text[i], nibble(words[i / 8], i % 8));
    }
    let read = Seq::new(text.len() / 8, |k: int| word_at(text, k) as u32);
    assert forall|k: int| 0 <= k < words.len() implies read[k] == words[k] by {
        lemma_nibbles(words[k]);
        lemma_digits_of_word(text, words, k);
    }
    assert(read =~= words);
}

/// The digits at the places of a word.
proof fn lemma_digits_of_word(text: Seq<char>, words: Seq<u32>, k: int)
    requires
        0 <= k < words.len(),
        text.len() == 8 * words.len(),
        forall|i: int|
            0 <= i < text.len() ==> digit_value(#[trigger] text[i]) == Some(
                nibble(words[i / 8], i % 8),
            ),
    ensures
        forall|j: int|
            0 <= j < 8 ==> digit_value(#[trigger] text[8 * k + j]) == Some(nibble(words[k], j)),
        digit_value(text[8 * k]) == Some(nibble(words[k], 0)),
{
    assert forall|j: int| 0 <= j < 8 implies digit_value(#[trigger] text[8 * k + j]) == Some(
        nibble(words[k], j),
    ) by {
        let i = 8 * k + j;
        assert(i / 8 == k && i % 8 == j);
    }
    assert(text[8 * k + 0] == text[8 * k]);
}

proof fn lemma_nibble_range(word: u32, i: int)
    ensures
        0 <= nibble(word, i) < 16,
{
}

/// The digits of a word make it up.
proof fn lemma_nibbles(word: u32)
    ensures
        word == nibble(word, 0) * 0x1000_0000 + nibble(word, 1) * 0x100_0000 + nibble(word, 2)
            * 0x10_0000 + nibble(word, 3) * 0x1_0000 + nibble(word, 4) * 0x1000 + nibble(word, 5)
            * 0x100 + nibble(word, 6) * 0x10 + nibble(word, 7),
{
    let a0 = word as int;
    let a1 = a0 / 0x10;
    let a2 = a0 / 0x100;
    let a3 = a0 / 0x1000;
    let a4 = a0 / 0x1_0000;
    let a5 = a0 / 0x10_0000;
    let a6 = a0 / 0x100_0000;
    let a7 = a0 / 0x1000_0000;
    assert(a2 == a1 / 16 && a3 == a2 / 16 && a4 == a3 / 16);
    assert(a5 == a4 / 16 && a6 == a5 / 16 && a7 == a6 / 16);
    assert(a0 == 16 * a1 + a0 % 16 && a1 == 16 * a2 + a1 % 16);
    assert(a2 == 16 * a3 + a2 % 16 && a3 == 16 * a4 + a3 % 16);
    assert(a4 == 16 * a5 + a4 % 16 && a5 == 16 * a6 + a5 % 16 && a6 == 16 * a7 + a6 % 16);
}

/// The characters of a text.
pub fn chars_of(text: &str) -> (r: Vec<char>)
    ensures
        r@ == text@,
{
    let mut r: Vec<char> = Vec::new();
    for c in it: text.chars()
        invariant
            r@ == it.seq().take(it.index() as int),
            it.seq() == text@,
    {
        assert(it.seq().take(it.index() as int).push(c) =~= it.seq().take(it.index() + 1));
        r.push(c);
    }
    assert(text@.take(text@.len() as int) =~= text@);
    r
}

/// The text of some characters.
pub fn string_of(chars: &[char]) -> (r: String)
    ensures
        r@ == chars@,
{
    let mut s = String::new();
    let mut i: usize = 0;
    while i < chars.len()
        invariant
            i <= chars@.len(),
            s@ == chars@.take(i as int),
        decreases chars@.len() - i,
    {
        s.push(chars[i]);
        assert(s@ =~= chars@.take(i + 1));
        i = i + 1;
    }
    assert(chars@.take(i as int) =~= chars@);
    s
}

/// Whether a character is white space: those that Unicode gives this property.
pub open spec fn is_white_space(c: char) -> bool {
    let code = c as u32;
    ||| 0x9 <= code <= 0xd
    ||| code == 0x20
    ||| code == 0x85
    ||| code == 0xa0
    ||| code == 0x1680
    ||| 0x2000 <= code <= 0x200a
    ||| code == 0x2028
    ||| code == 0x2029
    ||| code == 0x202f
    ||| code == 0x205f
    ||| code == 0x3000
}

fn decide_white_space(c: char) -> (r: bool)
    ensures
        r == is_white_space(c),
{
    let code: u32 = c as u32;
    (0x9 <= code && code <= 0xd) || code == 0x20 || code == 0x85 || code == 0xa0 || code == 0x1680
        || (0x2000 <= code && code <= 0x200a) || code == 0x2028 || code == 0x2029 || code == 0x202f
        || code == 0x205f || code == 0x3000
}

/// A text without the white space at its beginning.
pub open spec fn without_leading(s: Seq<char>) -> Seq<char>
    decreases s.len(),
{
    if s.len() > 0 && is_white_space(s[0]) {
        without_leading(s.skip(1))
    } else {
        s
    }
}

/// A text without the white space at its end.
pub open spec fn without_trailing(s: Seq<char>) -> Seq<char>
    decreases s.len(),
{
    if s.len() > 0 && is_white_space(s.last()) {
        without_trailing(s.drop_last())
    } else {
        s
    }
}

/// A text without the white space around it.
pub fn trim(text: &str) -> (r: String)
    ensures
        r@ == without_trailing(without_leading(text@)),
{
    let chars = chars_of(text);
    let ghost all = chars@;
    let mut start: usize = 0;
    assert(all.skip(0) =~= all);
    while start < chars.len() && decide_white_space(chars[start])
        invariant
            all == chars@,
            start <= all.len(),
            without_leading(all) == without_leading(all.skip(start as int)),
        decreases all.len() - start,
    {
        assert(all.skip(start as int).skip(1) =~= all.skip(start + 1));
        start = start + 1;
    }
    let ghost rest = all.skip(start as int);
    assert(without_leading(all) == rest);
    let mut end: usize = chars.len();
    assert(rest.take(end - start) =~= rest);
    while end > start && decide_white_space(chars[end - 1])
        invariant
            all == chars@,
            rest == all.skip(start as int),
            start <= end <= all.len(),
            without_trailing(rest) == without_trailing(rest.take(end - start)),
        decreases end - start,
    {
        assert(rest.take(end - start).drop_last() =~= rest.take(end - 1 - start));
        end = end - 1;
    }
    let ghost trimmed = rest.take(end - start);
    assert(without_trailing(rest) == trimmed);
    let mut kept: Vec<char> = Vec::new();
    let mut i: usize = start;
    while i < end
        invariant
            all == chars@,
            start <= i <= end <= all.len(),
            kept@ == all.subrange(start as int, i as int),
        decreases end - i,
    {
        kept.push(chars[i]);
        assert(kept@ =~= all.subrange(start as int, i + 1));
        i = i + 1;
    }
    assert(kept@ =~= trimmed);
    string_of(&kept)
}

/// The characters of digits are those of ASCII: `0` to `9` have the codes from 48 on, `A` to `F`
/// those from 65 on, `a` to `f` those from 97 on; and no other character is a digit.
pub proof fn law_digits_are_ascii(d: int, upper: bool, c: char)
    requires
        0 <= d < 16,
    ensures
        digit(d, upper) as int == if d < 10 {
            48 + d
        } else if upper {
            55 + d
        } else {
            87 + d
        },
        digit_value(c) == if 48 <= c as int <= 57 {
            Some(c as int - 48)
        } else if 65 <= c as int <= 70 {
            Some(c as int - 55)
        } else if 97 <= c as int <= 102 {
            Some(c as int - 87)
        } else {
            None
        },
{
    let code = c as int;
    if 48 <= code <= 57 {
        lemma_digit_is_unique(c, code - 48);
    } else if 65 <= code <= 70 {
        lemma_digit_is_unique(c, code - 55);
    } else if 97 <= code <= 102 {
        lemma_digit_is_unique(c, code - 87);
    } else {
        assert(forall|e: int| !is_digit(c, e));
    }
}

/// A decimal stands for its number: a number below ten is the digit with that value, and a digit
/// behind a decimal multiplies its number by ten and adds the digit.
pub proof fn law_decimal_is_positional(n: nat, d: nat)
    requires
        d < 10,
    ensures
        decimal(d).len() == 1,
        decimal(d)[0] as int == 48 + d,
        n > 0 ==> decimal(10 * n + d).len() == decimal(n).len() + 1,
        n > 0 ==> decimal(10 * n + d).drop_last() == decimal(n),
        n > 0 ==> decimal(10 * n + d).last() as int == 48 + d,
{
    if n > 0 {
        let m = 10 * n + d;
        assert(m / 10 == n && m % 10 == d);
        assert(decimal(m).drop_last() =~= decimal(n));
    }
}

/// A word as text: the digit at the place `j` of the word `k` has the bits of the word from
/// `28 - 4 * j` on.
pub proof fn law_hex_is_positional(words: Seq<u32>, upper: bool, k: int, j: int)
    requires
        0 <= k < words.len(),
        0 <= j < 8,
    ensures
        hex(words, upper).len() == 8 * words.len(),
        ({
            let d = (words[k] as int / vstd::arithmetic::power2::pow2((28 - 4 * j) as nat) as int)
                % 16;
            hex(words, upper)[8 * k + j] as int == if d < 10 {
                48 + d
            } else if upper {
                55 + d
            } else {
                87 + d
            }
        }),
{
    vstd::arithmetic::power2::lemma2_to64();
    let i = 8 * k + j;
    assert(i / 8 == k && i % 8 == j);
    if j == 0 {
        assert((28 - 4 * j) as nat == 28);
    } else if j == 1 {
        assert((28 - 4 * j) as nat == 24);
    } else if j == 2 {
        assert((28 - 4 * j) as nat == 20);
    } else if j == 3 {
        assert((28 - 4 * j) as nat == 16);
    } else if j == 4 {
        assert((28 - 4 * j) as nat == 12);
    } else if j == 5 {
        assert((28 - 4 * j) as nat == 8);
    } else if j == 6 {
        assert((28 - 4 * j) as nat == 4);
    } else {
        assert((28 - 4 * j) as nat == 0);
    }
    let d = nibble(words[k], j);
    assert(d == (words[k] as int / vstd::arithmetic::power2::pow2((28 - 4 * j) as nat) as int) % 16);
    law_digits_are_ascii(d, upper, '0');
}

/// A text is read as words if and only if it consists of hexadecimal digits, eight for each word;
/// every digit makes what stands before it in its word sixteen times as large and adds its value.
pub proof fn law_words_are_read_positionally(text: Seq<char>, k: int)
    ensures
        text.len() % 8 != 0 ==> words_of(text) == Err::<Seq<u32>, HexFault>(HexFault::Length),
        text.len() % 8 == 0 && (exists|i: int|
            0 <= i < text.len() && digit_value(#[trigger] text[i]) is None) ==> words_of(text)
            == Err::<Seq<u32>, HexFault>(HexFault::Digit),
        text.len() % 8 == 0 && (forall|i: int|
            0 <= i < text.len() ==> digit_value(#[trigger] text[i]) is Some) ==> {
            &&& words_of(text) is Ok
            &&& words_of(text)->Ok_0.len() == text.len() / 8
            &&& 0 <= k < text.len() / 8 ==> words_of(text)->Ok_0[k] == digit_value(
                text[8 * k + 7],
            )->0 + 16 * (digit_value(text[8 * k + 6])->0 + 16 * (digit_value(text[8 * k + 5])->0
                + 16 * (digit_value(text[8 * k + 4])->0 + 16 * (digit_value(text[8 * k + 3])->0 + 16
                * (digit_value(text[8 * k + 2])->0 + 16 * (digit_value(text[8 * k + 1])->0 + 16
                * digit_value(text[8 * k])->0))))))
        },
{
    if text.len() % 8 == 0 && all_digits(text) && 0 <= k < text.len() / 8 {
        assert forall|j: int| 0 <= j < 8 implies 0 <= digit_value(#[trigger] text[8 * k + j])->0
            < 16 by {
            law_digits_are_ascii(0, false, text[8 * k + j]);
        }
        assert(0 <= digit_value(text[8 * k + 0])->0 < 16);
        assert(0 <= digit_value(text[8 * k + 1])->0 < 16);
        assert(0 <= digit_value(text[8 * k + 2])->0 < 16);
        assert(0 <= digit_value(text[8 * k + 3])->0 < 16);
        assert(0 <= digit_value(text[8 * k + 4])->0 < 16);
        assert(0 <= digit_value(text[8 * k + 5])->0 < 16);
        assert(0 <= digit_value(text[8 * k + 6])->0 < 16);
        assert(0 <= digit_value(text[8 * k + 7])->0 < 16);
    }
}

/// A trimmed text is the text between white space: what is left neither begins nor ends with white
/// space, and what is gone is nothing else. Characters of ASCII are white space if they are a space
/// or one of the codes from 9 to 13.
pub proof fn law_trimmed_text(s: Seq<char>, c: char) -> (cut: (int, int))
    ensures
        0 <= cut.0 <= cut.1 <= s.len(),
        without_trailing(without_leading(s)) == s.subrange(cut.0, cut.1),
        forall|i: int| 0 <= i < cut.0 ==> is_white_space(#[trigger] s[i]),
        forall|i: int| cut.1 <= i < s.len() ==> is_white_space(#[trigger] s[i]),
        cut.0 < cut.1 ==> !is_white_space(s[cut.0]) && !is_white_space(s[cut.1 - 1]),
        (c as int) < 128 ==> (is_white_space(c) <==> c as int == 32 || 9 <= c as int <= 13),
{
    let a = lemma_leading(s);
    let rest = without_leading(s);
    let b = lemma_trailing(rest);
    assert(rest.take(b) =~= s.subrange(a, a + b));
    assert forall|i: int| a + b <= i < s.len() implies is_white_space(#[trigger] s[i]) by {
        assert(rest[i - a] == s[i]);
    }
    if b > 0 {
        assert(rest[0] == s[a]);
        assert(rest[b - 1] == s[a + b - 1]);
    }
    (a, a + b)
}

proof fn lemma_leading(s: Seq<char>) -> (a: int)
    ensures
        0 <= a <= s.len(),
        without_leading(s) == s.skip(a),
        forall|i: int| 0 <= i < a ==> is_white_space(#[trigger] s[i]),
        a < s.len() ==> !is_white_space(s[a]),
    decreases s.len(),
{
    if s.len() > 0 && is_white_space(s[0]) {
        let a = lemma_leading(s.skip(1));
        assert(s.skip(1).skip(a) =~= s.skip(a + 1));
        assert forall|i: int| 0 <= i < a + 1 implies is_white_space(#[trigger] s[i]) by {
            if i > 0 {
                assert(s.skip(1)[i - 1] == s[i]);
            }
        }
        if a + 1 < s.len() {
            assert(s.skip(1)[a] == s[a + 1]);
        }
        a + 1
    } else {
        assert(s.skip(0) =~= s);
        0
    }
}

proof fn lemma_trailing(s: Seq<char>) -> (b: int)
    ensures
        0 <= b <= s.len(),
        without_trailing(s) == s.take(b),
        forall|i: int| b <= i < s.len() ==> is_white_space(#[trigger] s[i]),
        b > 0 ==> !is_white_space(s[b - 1]),
    decreases s.len(),
{
    if s.len() > 0 && is_white_space(s.last()) {
        let b = lemma_trailing(s.drop_last());
        assert(s.drop_last().take(b) =~= s.take(b));
        assert forall|i: int| b <= i < s.len() implies is_white_space(#[trigger] s[i]) by {
            if i < s.len() - 1 {
                assert(s.drop_last()[i] == s[i]);
            }
        }
        if b > 0 {
            assert(s.drop_last()[b - 1] == s[b - 1]);
        }
        b
    } else {
        assert(s.take(s.len() as int) =~= s);
        s.len() as int
    }
}

/// White space is made of 25 characters: the six of ASCII, the next line, the no-break space, and
/// the spaces and separators beyond.
pub proof fn law_white_space(c: char)
    ensures
        is_white_space(c) <==> seq![
            0x9u32,
            0xa,
            0xb,
            0xc,
            0xd,
            0x20,
            0x85,
            0xa0,
            0x1680,
            0x2000,
            0x2001,
            0x2002,
            0x2003,
            0x2004,
            0x2005,
            0x2006,
            0x2007,
            0x2008,
            0x2009,
            0x200a,
            0x2028,
            0x2029,
            0x202f,
            0x205f,
            0x3000,
        ].contains(c as u32),
{
    let all = seq![
        0x9u32,
        0xa,
        0xb,
        0xc,
        0xd,
        0x20,
        0x85,
        0xa0,
        0x1680,
        0x2000,
        0x2001,
        0x2002,
        0x2003,
        0x2004,
        0x2005,
        0x2006,
        0x2007,
        0x2008,
        0x2009,
        0x200a,
        0x2028,
        0x2029,
        0x202f,
        0x205f,
        0x3000,
    ];
    let code = c as u32;
    if 0x9 <= code <= 0xd {
        assert(all[code - 0x9] == code);
    } else if 0x2000 <= code <= 0x200a {
        assert(all[9 + (code - 0x2000)] == code);
    } else if is_white_space(c) {
        assert(all[5] == 0x20 && all[6] == 0x85 && all[7] == 0xa0 && all[8] == 0x1680);
        assert(all[20] == 0x2028 && all[21] == 0x2029 && all[22] == 0x202f && all[23] == 0x205f);
        assert(all[24] == 0x3000);
    }
}

} // verus!
