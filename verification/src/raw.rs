//! Arguments as the system hands them over, and the text that the scan
//! reads in them.

use crate::scan::nats;
use crate::text::{
    byte_len, lemma_encode_concat, lemma_token_span, span_len, texts, token_start,
};
use vstd::prelude::*;
use vstd::slice::slice_subrange;
use vstd::string::StringExecFns;
use vstd::utf8::{decode_utf8, encode_utf8, encode_utf8_decode_utf8, valid_utf8};

verus! {

/// How the bytes of an argument that is not valid UTF-8 are counted. An
/// argument that is valid UTF-8 is its own text under either mode.
#[derive(Clone, Copy, Debug, PartialEq, Eq, Structural)]
pub enum LengthMode {
    /// As they are.
    Raw,
    /// After every sequence that is not valid UTF-8 was replaced with
    /// U+FFFD, as the argument would be shown.
    Lossy,
}

/// The character that stands in a text for a byte that could not be
/// decoded. What tells it from a character of the argument is where it
/// stands, not what it is: beside each text goes the count of mask
/// characters at its end.
pub const MASK: char = '\u{1a}';

/// The text that `String::from_utf8_lossy` makes of `bytes`.
pub uninterp spec fn lossy_text(bytes: Seq<u8>) -> Seq<char>;

/// Length of the longest prefix of `bytes`, no longer than `upto`, that is
/// valid UTF-8.
pub open spec fn valid_prefix(bytes: Seq<u8>, upto: nat) -> nat
    decreases upto,
{
    if upto == 0 || valid_utf8(bytes.take(upto as int)) {
        upto
    } else {
        valid_prefix(bytes, (upto - 1) as nat)
    }
}

/// Calls `String::from_utf8_lossy`: the text of `bytes`, with U+FFFD in
/// place of what is not valid UTF-8. What is valid stays as it is, so the
/// text takes no fewer bytes than the longest valid prefix of `bytes`.
#[verifier::external_body]
fn decode_lossy(bytes: &[u8]) -> (r: String)
    ensures
        r@ == lossy_text(bytes@),
        byte_len(r@) >= valid_prefix(bytes@, bytes@.len()),
{
    String::from_utf8_lossy(bytes).into_owned()
}

/// `std::str::Utf8Error`, handed on as it is: nothing is known of what it
/// holds.
#[verifier::external_type_specification]
#[verifier::external_body]
pub struct ExUtf8Error(std::str::Utf8Error);

/// The length that `Utf8Error::valid_up_to` reports.
pub uninterp spec fn valid_up_to(error: std::str::Utf8Error) -> nat;

/// Calls `std::str::from_utf8`: the text whose bytes `bytes` are; or, where
/// they are not valid UTF-8, an error that knows the greatest length up to
/// which they are.
#[verifier::external_body]
fn decode_strict(bytes: &[u8]) -> (r: Result<String, std::str::Utf8Error>)
    ensures
        r is Ok <==> valid_utf8(bytes@),
        r matches Ok(text) ==> encode_utf8(text@) == bytes@,
        r matches Err(error) ==> valid_up_to(error) == valid_prefix(bytes@, bytes@.len()),
{
    std::str::from_utf8(bytes).map(|text| text.to_owned())
}

/// Calls `Utf8Error::valid_up_to`.
#[verifier::external_body]
fn read_valid_up_to(error: &std::str::Utf8Error) -> (r: usize)
    ensures
        r == valid_up_to(*error),
{
    error.valid_up_to()
}

/// A text of `length` characters that stand for what could not be decoded.
pub open spec fn mask(length: nat) -> Seq<char> {
    Seq::new(length, |i: int| MASK)
}

/// The length of an argument under `mode`.
pub open spec fn length_under(bytes: Seq<u8>, mode: LengthMode) -> nat {
    if valid_utf8(bytes) {
        bytes.len()
    } else {
        match mode {
            LengthMode::Raw => bytes.len(),
            LengthMode::Lossy => byte_len(lossy_text(bytes)),
        }
    }
}

/// How many bytes of an argument could not be decoded, counted under
/// `mode`: those that it takes behind its longest prefix that is valid
/// UTF-8.
pub open spec fn masked_bytes(bytes: Seq<u8>, mode: LengthMode) -> nat {
    let kept = valid_prefix(bytes, bytes.len());
    let length = length_under(bytes, mode);
    if length >= kept {
        (length - kept) as nat
    } else {
        0
    }
}

/// The text that the scan reads in an argument: its longest prefix that is
/// valid UTF-8 as it is, and one mask character for each byte that could
/// not be decoded. An argument that is valid UTF-8 is read as it is.
pub open spec fn text_under(bytes: Seq<u8>, mode: LengthMode) -> Seq<char> {
    decode_utf8(bytes.take(valid_prefix(bytes, bytes.len()) as int)) + mask(
        masked_bytes(bytes, mode),
    )
}

/// The bytes of each argument.
pub open spec fn all_bytes(args: Seq<Vec<u8>>) -> Seq<Seq<u8>> {
    Seq::new(args.len(), |i: int| args[i]@)
}

/// The texts that the scan reads in the arguments.
pub open spec fn texts_under(args: Seq<Seq<u8>>, mode: LengthMode) -> Seq<Seq<char>> {
    Seq::new(args.len(), |i: int| text_under(args[i], mode))
}

/// How many characters at the end of each text stand for bytes that could
/// not be decoded.
pub open spec fn masked_under(args: Seq<Seq<u8>>, mode: LengthMode) -> Seq<nat> {
    Seq::new(args.len(), |i: int| masked_bytes(args[i], mode))
}

/// A mask takes as many bytes as it is long.
pub proof fn lemma_mask(length: nat)
    ensures
        byte_len(mask(length)) == length,
{
    vstd::utf8::is_ascii_chars_encode_utf8(mask(length));
}

/// The longest valid prefix is valid, and it is all of an argument that is
/// valid.
pub proof fn lemma_valid_prefix(bytes: Seq<u8>, upto: nat)
    requires
        upto <= bytes.len(),
    ensures
        valid_prefix(bytes, upto) <= upto,
        valid_utf8(bytes.take(valid_prefix(bytes, upto) as int)),
        valid_utf8(bytes) && upto == bytes.len() ==> valid_prefix(bytes, upto) == upto,
    decreases upto,
{
    if upto == 0 {
        assert(bytes.take(0).len() == 0);
    } else if !valid_utf8(bytes.take(upto as int)) {
        lemma_valid_prefix(bytes, (upto - 1) as nat);
    }
    if upto == bytes.len() {
        assert(bytes.take(upto as int) == bytes);
    }
}

/// An argument that is valid UTF-8 is read as it is. Under `Raw` every
/// argument takes as many bytes as it has, and under `Lossy` no fewer than
/// its text would take with U+FFFD in place of what is not valid.
pub proof fn lemma_lengths(bytes: Seq<u8>, mode: LengthMode)
    ensures
        valid_utf8(bytes) ==> text_under(bytes, mode) == decode_utf8(bytes),
        byte_len(text_under(bytes, LengthMode::Raw)) == bytes.len(),
        byte_len(text_under(bytes, mode)) >= length_under(bytes, mode),
{
    let kept = valid_prefix(bytes, bytes.len());
    lemma_valid_prefix(bytes, bytes.len());
    let prefix = bytes.take(kept as int);
    vstd::utf8::decode_utf8_encode_utf8(prefix);
    let tail = masked_bytes(bytes, mode);
    lemma_mask(tail);
    lemma_encode_concat(decode_utf8(prefix), mask(tail));
    let raw = bytes.len();
    lemma_mask((raw - kept) as nat);
    lemma_encode_concat(decode_utf8(prefix), mask((raw - kept) as nat));
    if valid_utf8(bytes) {
        assert(prefix == bytes);
        assert(mask(0) == Seq::<char>::empty());
        assert(decode_utf8(bytes) + Seq::<char>::empty() == decode_utf8(bytes));
    }
}

/// Bytes that the `count` arguments from `from` on take as they are, each
/// followed by one separator.
pub open spec fn raw_span(args: Seq<Seq<u8>>, from: int, count: nat) -> nat
    decreases count,
{
    if count == 0 || from < 0 || from >= args.len() {
        0
    } else {
        args[from].len() + 1 + raw_span(args, from + 1, (count - 1) as nat)
    }
}

/// Under `Raw` the tokens lie in the argv string where the arguments lie in
/// the command line as the system handed it over: every token starts after
/// the bytes of the arguments before it and their separators.
pub proof fn lemma_raw_offsets(args: Seq<Seq<u8>>, from: int, count: nat)
    ensures
        span_len(texts_under(args, LengthMode::Raw), from, count) == raw_span(args, from, count),
    decreases count,
{
    if !(count == 0 || from < 0 || from >= args.len()) {
        lemma_lengths(args[from], LengthMode::Raw);
        lemma_raw_offsets(args, from + 1, (count - 1) as nat);
    }
}

/// A mask of `length` characters.
pub fn masked(length: usize) -> (r: String)
    ensures
        r@ == mask(length as nat),
{
    let mut r = String::new();
    let mut i: usize = 0;
    while i < length
        invariant
            i <= length,
            r@ == mask(i as nat),
        decreases length - i,
    {
        proof {
            reveal_strlit("\u{1a}");
            assert(mask(i as nat) + "\u{1a}"@ == mask((i + 1) as nat));
        }
        r.append("\u{1a}");
        i = i + 1;
    }
    r
}

/// Reads the text of an argument under `mode`, and counts how many
/// characters at its end stand for bytes that could not be decoded.
pub fn read_token(bytes: &[u8], mode: LengthMode) -> (r: (String, usize))
    ensures
        r.0@ == text_under(bytes@, mode),
        r.1 == masked_bytes(bytes@, mode),
        byte_len(r.0@) == length_under(bytes@, mode),
{
    proof {
        lemma_valid_prefix(bytes@, bytes@.len());
    }
    match decode_strict(bytes) {
        Ok(text) => {
            proof {
                encode_utf8_decode_utf8(text@);
                assert(bytes@.take(bytes@.len() as int) == bytes@);
                assert(mask(0) == Seq::<char>::empty());
                assert(text@ + Seq::<char>::empty() == text@);
            }
            (text, 0)
        },
        Err(error) => {
            let kept = read_valid_up_to(&error);
            let prefix = slice_subrange(bytes, 0, kept);
            let mut text = match decode_strict(prefix) {
                Ok(text) => text,
                Err(_) => String::new(),
            };
            proof {
                encode_utf8_decode_utf8(text@);
                assert(prefix@ == bytes@.take(kept as int));
            }
            let length = match mode {
                LengthMode::Raw => bytes.len(),
                LengthMode::Lossy => decode_lossy(bytes).as_str().as_bytes().len(),
            };
            let tail = if length >= kept {
                length - kept
            } else {
                0
            };
            proof {
                vstd::utf8::decode_utf8_encode_utf8(prefix@);
                lemma_mask(tail as nat);
                lemma_encode_concat(text@, mask(tail as nat));
            }
            text.append(masked(tail).as_str());
            (text, tail)
        },
    }
}

/// Reads the texts of the arguments under `mode`, and counts for each how
/// many characters at its end stand for bytes that could not be decoded.
pub fn read_tokens(args: &Vec<Vec<u8>>, mode: LengthMode) -> (r: (Vec<String>, Vec<usize>))
    ensures
        texts(r.0@) == texts_under(all_bytes(args@), mode),
        nats(r.1@) == masked_under(all_bytes(args@), mode),
        forall|i: int|
            0 <= i < args@.len() ==> byte_len(#[trigger] texts(r.0@)[i]) == length_under(
                args@[i]@,
                mode,
            ),
{
    let ghost all = all_bytes(args@);
    let mut tokens: Vec<String> = Vec::new();
    let mut hides: Vec<usize> = Vec::new();
    let mut i: usize = 0;
    while i < args.len()
        invariant
            i <= args.len(),
            all == all_bytes(args@),
            tokens.len() == i,
            hides.len() == i,
            forall|e: int| 0 <= e < i ==> (#[trigger] tokens@[e])@ == text_under(all[e], mode),
            forall|e: int| 0 <= e < i ==> (#[trigger] hides@[e]) == masked_bytes(all[e], mode),
            forall|e: int|
                0 <= e < i ==> byte_len((#[trigger] tokens@[e])@) == length_under(all[e], mode),
        decreases args.len() - i,
    {
        let (text, hidden) = read_token(args[i].as_slice(), mode);
        tokens.push(text);
        hides.push(hidden);
        i = i + 1;
    }
    assert(texts(tokens@) == texts_under(all, mode));
    assert(nats(hides@) == masked_under(all, mode));
    (tokens, hides)
}

/// Whether the argv string of `tokens`, with one separator behind it, is
/// short enough for its offsets to be counted.
pub fn offsets_fit(tokens: &[String]) -> (r: bool)
    ensures
        r == (token_start(texts(tokens@), tokens.len() as int) <= usize::MAX),
{
    let ghost all = texts(tokens@);
    let mut total: usize = 0;
    let mut i: usize = 0;
    while i < tokens.len()
        invariant
            i <= tokens.len(),
            all == texts(tokens@),
            total == token_start(all, i as int),
        decreases tokens.len() - i,
    {
        proof {
            lemma_token_span(all, i as int);
        }
        let length = tokens[i].as_str().as_bytes().len();
        let next = match total.checked_add(length) {
            Some(sum) => sum.checked_add(1),
            None => None,
        };
        match next {
            Some(sum) => {
                total = sum;
            },
            None => {
                return false;
            },
        }
        i = i + 1;
    }
    true
}

} // verus!
