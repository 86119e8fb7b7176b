//! The input of a program: where it comes from, and how it is turned into words.
use crate::text;
use crate::text::{append_decimal, chars_of, string_of, u32_from_hex_string, HexFault};
use base64::Engine;
use vstd::prelude::*;
use vstd::string::*;

verus! {

/// How an input is written down.
#[derive(Clone, Copy, Debug, PartialEq, Eq)]
pub enum InputType {
    /// Eight hexadecimal digits for each word.
    Hex,
    /// A JSON object, the field `prover_input` of which holds the bytes of the words in base 64.
    ProverInputJson,
}

impl Default for InputType {
    fn default() -> (r: InputType)
        ensures
            r == InputType::Hex,
    {
        InputType::Hex
    }
}

/// Where the input of a program comes from.
pub struct InputConfig {
    /// A local file.
    pub input_file: Option<String>,
    /// How the file is written; what comes from elsewhere is always JSON.
    pub input_type: InputType,
    /// The address of a service.
    pub input_rpc: Option<String>,
    /// Which of the inputs of the service is meant.
    pub input_batch: Option<u64>,
}

/// What has to be read to get an input.
pub enum InputSource {
    File(String, InputType),
    Rpc(String),
    Nothing,
}

impl InputConfig {
    /// Chooses the source of the input: a file goes before a service.
    pub fn source(&self) -> (r: InputSource)
        ensures
            match self.input_file {
                Some(file) => r is File && r->File_0@ == file@ && r->File_1 == self.input_type,
                None => match self.input_rpc {
                    Some(url) => r is Rpc && r->Rpc_0@ == url@,
                    None => r is Nothing,
                },
            },
    {
        match &self.input_file {
            Some(file) => InputSource::File(file.clone(), self.input_type),
            None => match &self.input_rpc {
                Some(url) => InputSource::Rpc(url.clone()),
                None => InputSource::Nothing,
            },
        }
    }
}

/// What has to be read to get the proof that a final proof starts from.
pub enum FinalInputSource {
    File(String),
    Url(String),
    Nothing,
    /// A service without a batch.
    NoBatch,
}

/// The address of a batch.
pub open spec fn batch_url(url: Seq<char>, batch: u64) -> Seq<char> {
    url + "/downloads/"@ + text::decimal(batch as nat)
}

impl InputConfig {
    /// Chooses the source of the proof that a final proof starts from.
    pub fn final_source(&self) -> (r: FinalInputSource)
        ensures
            match self.input_file {
                Some(file) => r is File && r->File_0@ == file@,
                None => match (self.input_rpc, self.input_batch) {
                    (Some(url), Some(batch)) => r is Url && r->Url_0@ == batch_url(url@, batch),
                    (Some(_), None) => r is NoBatch,
                    (None, _) => r is Nothing,
                },
            },
    {
        match &self.input_file {
            Some(file) => FinalInputSource::File(file.clone()),
            None => match &self.input_rpc {
                None => FinalInputSource::Nothing,
                Some(url) => match self.input_batch {
                    None => FinalInputSource::NoBatch,
                    Some(batch) => {
                        let mut address = url.clone();
                        address.append("/downloads/");
                        append_decimal(&mut address, batch);
                        FinalInputSource::Url(address)
                    },
                },
            },
        }
    }
}

/// Why an input cannot be turned into words.
#[derive(Clone, Copy, Debug, PartialEq, Eq)]
pub enum InputFault {
    Hex(HexFault),
    Json,
    Base64,
}

/// What the field `key` of a JSON object holds: `None` if the text is no JSON, `Some(None)` if it
/// has no such field or the field is no string.
pub uninterp spec fn json_string_field(text: Seq<char>, key: Seq<char>) -> Option<
    Option<Seq<char>>,
>;

/// `serde_json::from_str` reads a JSON value, and indexing it with a key and `as_str` give the
/// string under that key. All three depend on the text and the key alone.
#[verifier::external_body]
fn string_field(text: &str, key: &str) -> (r: Option<Option<String>>)
    ensures
        match r {
            None => json_string_field(text@, key@) is None,
            Some(None) => json_string_field(text@, key@) == Some(None::<Seq<char>>),
            Some(Some(value)) => json_string_field(text@, key@) == Some(Some(value@)),
        },
{
    match serde_json::from_str::<serde_json::Value>(text) {
        Ok(json) => Some(json[key].as_str().map(String::from)),
        Err(_) => None,
    }
}

/// The bytes that a text stands for in base 64, if it is one.
pub uninterp spec fn base64_bytes(text: Seq<char>) -> Option<Seq<u8>>;

/// `base64::engine::general_purpose::STANDARD.decode` gives the bytes that a text stands for, or
/// an error. The empty text stands for no bytes.
#[verifier::external_body]
fn decode_base64(text: &str) -> (r: Option<Vec<u8>>)
    ensures
        match r {
            Some(bytes) => base64_bytes(text@) == Some(bytes@),
            None => base64_bytes(text@) is None,
        },
        text@.len() == 0 ==> r is Some && r->0@.len() == 0,
{
    base64::engine::general_purpose::STANDARD.decode(text).ok()
}

/// The word of four bytes, the lowest first.
pub open spec fn le_word(b0: u8, b1: u8, b2: u8, b3: u8) -> u32 {
    (b0 + 0x100 * b1 + 0x1_0000 * b2 + 0x100_0000 * b3) as u32
}

/// The words of bytes, four for each word; bytes that do not fill a word are left out.
pub open spec fn le_words(bytes: Seq<u8>) -> Seq<u32> {
    Seq::new(
        bytes.len() / 4,
        |k: int| le_word(bytes[4 * k], bytes[4 * k + 1], bytes[4 * k + 2], bytes[4 * k + 3]),
    )
}

/// The words of bytes, four for each word; bytes that do not fill a word are left out.
pub fn words_from_le_bytes(bytes: &[u8]) -> (r: Vec<u32>)
    ensures
        r@ == le_words(bytes@),
{
    let mut r: Vec<u32> = Vec::new();
    let mut k: usize = 0;
    while k < bytes.len() / 4
        invariant
            k <= bytes@.len() / 4,
            r@.len() == k,
            forall|j: int|
                0 <= j < k ==> #[trigger] r@[j] == le_word(
                    bytes@[4 * j],
                    bytes@[4 * j + 1],
                    bytes@[4 * j + 2],
                    bytes@[4 * j + 3],
                ),
        decreases bytes@.len() / 4 - k,
    {
        let at: usize = 4 * k;
        let word: u32 = bytes[at] as u32 + 0x100 * bytes[at + 1] as u32 + 0x1_0000 * bytes[at
            + 2] as u32 + 0x100_0000 * bytes[at + 3] as u32;
        r.push(word);
        k = k + 1;
    }
    assert(r@ =~= le_words(bytes@));
    r
}

/// The text of the input in a JSON field; without one it is empty.
pub fn field_text(field: Option<String>) -> (r: String)
    ensures
        r@ == text_or_empty(
            match field {
                Some(value) => Some(value@),
                None => None,
            },
        ),
{
    match field {
        Some(value) => value,
        None => String::new(),
    }
}

/// The text of the input in a JSON field.
pub open spec fn text_or_empty(field: Option<Seq<char>>) -> Seq<char> {
    match field {
        Some(value) => value,
        None => seq![],
    }
}

/// The words of an input that is written as JSON.
pub open spec fn json_words(text: Seq<char>) -> Result<Seq<u32>, InputFault> {
    match json_string_field(text, "prover_input"@) {
        None => Err(InputFault::Json),
        Some(field) => match base64_bytes(text_or_empty(field)) {
            None => Err(InputFault::Base64),
            Some(bytes) => Ok(le_words(bytes)),
        },
    }
}

/// The words of an input.
pub open spec fn input_words(text: Seq<char>, input_type: InputType) -> Result<
    Seq<u32>,
    InputFault,
> {
    match input_type {
        InputType::Hex => match text::words_of(text) {
            Ok(words) => Ok(words),
            Err(fault) => Err(InputFault::Hex(fault)),
        },
        InputType::ProverInputJson => json_words(text),
    }
}

/// The words of an input.
pub fn decode_input(text: &str, input_type: InputType) -> (r: Result<Vec<u32>, InputFault>)
    ensures
        match r {
            Ok(words) => input_words(text@, input_type) == Ok::<Seq<u32>, InputFault>(words@),
            Err(fault) => input_words(text@, input_type) == Err::<Seq<u32>, InputFault>(fault),
        },
        input_type is ProverInputJson && json_string_field(text@, "prover_input"@) == Some(
            None::<Seq<char>>,
        ) ==> r is Ok && r->Ok_0@.len() == 0,
{
    match input_type {
        InputType::Hex => match u32_from_hex_string(text) {
            Ok(words) => Ok(words),
            Err(fault) => Err(InputFault::Hex(fault)),
        },
        InputType::ProverInputJson => match string_field(text, "prover_input") {
            None => Err(InputFault::Json),
            Some(field) => {
                let encoded = field_text(field);
                match decode_base64(encoded.as_str()) {
                    None => Err(InputFault::Base64),
                    Some(bytes) => Ok(words_from_le_bytes(bytes.as_slice())),
                }
            },
        },
    }
}

/// A text without a leading `0x`.
pub open spec fn without_0x(text: Seq<char>) -> Seq<char> {
    if text.len() >= 2 && text[0] == '0' && text[1] == 'x' {
        text.skip(2)
    } else {
        text
    }
}

/// A text without a leading `0x`.
pub fn strip_0x(text: &str) -> (r: String)
    ensures
        r@ == without_0x(text@),
{
    let chars: Vec<char> = chars_of(text);
    if chars.len() >= 2 && chars[0] == '0' && chars[1] == 'x' {
        let mut rest: Vec<char> = Vec::new();
        let mut i: usize = 2;
        while i < chars.len()
            invariant
                2 <= i <= chars@.len(),
                rest@ == chars@.subrange(2, i as int),
            decreases chars@.len() - i,
        {
            rest.push(chars[i]);
            assert(rest@ =~= chars@.subrange(2, i + 1));
            i = i + 1;
        }
        assert(rest@ =~= chars@.skip(2));
        string_of(rest.as_slice())
    } else {
        string_of(chars.as_slice())
    }
}

/// What a service replied: the text in the field `result`, without a leading `0x`, or nothing if
/// there is no such text. A reply that is no JSON is a fault.
pub fn rpc_result(reply: &str) -> (r: Result<Option<String>, InputFault>)
    ensures
        match json_string_field(reply@, "result"@) {
            None => r == Err::<Option<String>, InputFault>(InputFault::Json),
            Some(None) => r == Ok::<Option<String>, InputFault>(None),
            Some(Some(value)) => r is Ok && r->Ok_0 is Some && r->Ok_0->0@ == without_0x(value),
        },
{
    match string_field(reply, "result") {
        None => Err(InputFault::Json),
        Some(None) => Ok(None),
        Some(Some(value)) => Ok(Some(strip_0x(value.as_str()))),
    }
}

/// The input of a program from what its source holds: a missing reply is no input.
pub fn decode_optional(text: Option<String>, input_type: InputType) -> (r: Result<
    Option<Vec<u32>>,
    InputFault,
>)
    ensures
        match text {
            None => r == Ok::<Option<Vec<u32>>, InputFault>(None),
            Some(t) => match input_words(t@, input_type) {
                Ok(words) => r is Ok && r->Ok_0 is Some && r->Ok_0->0@ == words,
                Err(fault) => r == Err::<Option<Vec<u32>>, InputFault>(fault),
            },
        },
{
    match text {
        None => Ok(None),
        Some(t) => match decode_input(t.as_str(), input_type) {
            Ok(words) => Ok(Some(words)),
            Err(fault) => Err(fault),
        },
    }
}

/// What is written in hexadecimal is the input that is read.
pub proof fn law_hex_input_is_read_back(words: Seq<u32>, upper: bool)
    ensures
        input_words(text::hex(words, upper), InputType::Hex) == Ok::<Seq<u32>, InputFault>(words),
{
    text::law_hex_round_trip(words, upper);
}

/// The word with four given bytes.
proof fn lemma_le_word(word: u32)
    ensures
        le_word(
            (word as int % 0x100) as u8,
            (word as int / 0x100 % 0x100) as u8,
            (word as int / 0x1_0000 % 0x100) as u8,
            (word as int / 0x100_0000) as u8,
        ) == word,
{
    let w = word as int;
    let a1 = w / 0x100;
    let a2 = w / 0x1_0000;
    let a3 = w / 0x100_0000;
    assert(a2 == a1 / 0x100 && a3 == a2 / 0x100);
    assert(w == 0x100 * a1 + w % 0x100);
    assert(a1 == 0x100 * a2 + a1 % 0x100);
    assert(a2 == 0x100 * a3 + a2 % 0x100);
}

/// The bytes of words, the lowest byte of each first.
pub open spec fn le_bytes(words: Seq<u32>) -> Seq<u8> {
    Seq::new(
        4 * words.len(),
        |i: int|
            if i % 4 == 0 {
                (words[i / 4] as int % 0x100) as u8
            } else if i % 4 == 1 {
                (words[i / 4] as int / 0x100 % 0x100) as u8
            } else if i % 4 == 2 {
                (words[i / 4] as int / 0x1_0000 % 0x100) as u8
            } else {
                (words[i / 4] as int / 0x100_0000) as u8
            },
    )
}

/// The bytes of words give the words back, whatever up to three bytes follow.
pub proof fn law_le_bytes_round_trip(words: Seq<u32>, rest: Seq<u8>)
    requires
        rest.len() < 4,
    ensures
        le_words(le_bytes(words) + rest) == words,
{
    let bytes = le_bytes(words) + rest;
    assert(bytes.len() / 4 == words.len());
    assert forall|k: int| 0 <= k < words.len() implies le_words(bytes)[k] == words[k] by {
        assert((4 * k) / 4 == k && (4 * k) % 4 == 0);
        assert((4 * k + 1) / 4 == k && (4 * k + 1) % 4 == 1);
        assert((4 * k + 2) / 4 == k && (4 * k + 2) % 4 == 2);
        assert((4 * k + 3) / 4 == k && (4 * k + 3) % 4 == 3);
        lemma_le_word(words[k]);
    }
    assert(le_words(bytes) =~= words);
}

/// Bytes are read as words of four, the lowest byte first, and bytes that do not fill a word are
/// left out.
pub proof fn law_words_of_bytes(bytes: Seq<u8>, k: int)
    ensures
        le_words(bytes).len() == bytes.len() / 4,
        0 <= k < bytes.len() / 4 ==> le_words(bytes)[k] == bytes[4 * k] + 0x100 * (bytes[4 * k + 1]
            + 0x100 * (bytes[4 * k + 2] + 0x100 * bytes[4 * k + 3])),
{
}

/// An input in JSON is the words of the bytes that its field `prover_input` stands for in base 64; a
/// field that is missing or no text stands for the empty text. An input in hexadecimal is the
/// words of its text. What cannot be read is told apart.
pub proof fn law_input_words(text: Seq<char>)
    ensures
        ({
            let field = json_string_field(text, "prover_input"@);
            let read = input_words(text, InputType::ProverInputJson);
            let encoded = match field {
                Some(Some(value)) => value,
                _ => Seq::<char>::empty(),
            };
            if field is None {
                read == Err::<Seq<u32>, InputFault>(InputFault::Json)
            } else if base64_bytes(encoded) is None {
                read == Err::<Seq<u32>, InputFault>(InputFault::Base64)
            } else {
                read == Ok::<Seq<u32>, InputFault>(le_words(base64_bytes(encoded)->0))
            }
        }),
        ({
            let read = input_words(text, InputType::Hex);
            match text::words_of(text) {
                Ok(words) => read == Ok::<Seq<u32>, InputFault>(words),
                Err(fault) => read == Err::<Seq<u32>, InputFault>(InputFault::Hex(fault)),
            }
        }),
{
}

/// A leading `0x` is taken off once, and nothing else is.
pub proof fn law_prefix_is_taken_off(rest: Seq<char>, text: Seq<char>)
    ensures
        without_0x(seq!['0', 'x'] + rest) == rest,
        text.len() < 2 || text[0] != '0' || text[1] != 'x' ==> without_0x(text) == text,
{
    assert((seq!['0', 'x'] + rest).skip(2) =~= rest);
}

/// The address of a batch is that of the service, followed by `/downloads/` and the number of the
/// batch in decimal.
pub proof fn law_batch_url(url: Seq<char>, batch: u64)
    ensures
        batch_url(url, batch).take(url.len() as int) == url,
        batch_url(url, batch).subrange(url.len() as int, url.len() as int + 11) == "/downloads/"@,
        batch_url(url, batch).skip(url.len() as int + 11) == text::decimal(batch as nat),
{
    reveal_strlit("/downloads/");
    let whole = batch_url(url, batch);
    assert(whole.take(url.len() as int) =~= url);
    assert(whole.subrange(url.len() as int, url.len() as int + 11) =~= "/downloads/"@);
    assert(whole.skip(url.len() as int + 11) =~= text::decimal(batch as nat));
}

} // verus!
