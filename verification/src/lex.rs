//! The shapes of a token: a long name with an optional inline value, a
//! cluster of short names, or a plain value. `clap_lex` tells them apart.

use crate::text::{byte_len, lemma_char_width, lemma_encode_concat};
use vstd::prelude::*;

verus! {

/// A token that starts with two hyphens and goes on behind them.
pub open spec fn is_long(token: Seq<char>) -> bool {
    token.len() > 2 && token[0] == '-' && token[1] == '-'
}

/// A token that starts with one hyphen and goes on with something else.
pub open spec fn is_short(token: Seq<char>) -> bool {
    token.len() >= 2 && token[0] == '-' && token[1] != '-'
}

/// A token that is neither: a positional argument or a value, `-` and `--`
/// among them.
pub open spec fn is_plain(token: Seq<char>) -> bool {
    !is_long(token) && !is_short(token)
}

/// Index of the first `=` in `s`, or the length of `s` where it has none.
pub open spec fn first_equals(s: Seq<char>) -> int
    decreases s.len(),
{
    if s.len() == 0 || s[0] == '=' {
        0
    } else {
        1 + first_equals(s.drop_first())
    }
}

/// The name of a long token: what stands behind the hyphens, up to the first `=`.
pub open spec fn long_name(token: Seq<char>) -> Seq<char> {
    token.skip(2).take(first_equals(token.skip(2)))
}

/// The inline value of a long token: what stands behind the first `=`, if
/// there is one.
pub open spec fn long_value(token: Seq<char>) -> Option<Seq<char>> {
    let rest = token.skip(2);
    if first_equals(rest) < rest.len() {
        Some(rest.skip(first_equals(rest) + 1))
    } else {
        None
    }
}

/// A long token whose name can be looked up: one whose name lies in what
/// was decoded of the token, which is all but its last `masked` characters.
pub open spec fn names_long(token: Seq<char>, masked: nat) -> bool {
    is_long(token) && 2 + long_name(token).len() <= token.len() - masked
}

/// Whether the `k`-th name of the cluster of `token` could not be decoded:
/// it stands among the last `masked` characters of the token.
pub open spec fn is_masked(token: Seq<char>, masked: nat, k: int) -> bool {
    k + 1 >= token.len() - masked
}

/// The cluster of a short token: what stands behind the hyphen.
pub open spec fn short_cluster(token: Seq<char>) -> Seq<char> {
    token.skip(1)
}

/// The text of an optional string.
pub open spec fn text_of(value: Option<String>) -> Option<Seq<char>> {
    match value {
        Some(v) => Some(v@),
        None => None,
    }
}

/// Whether `token` is made of two hyphens, `name` and, where `value` is
/// given, `=` and the value.
pub open spec fn spells_long(token: Seq<char>, name: Seq<char>, value: Option<Seq<char>>) -> bool {
    match value {
        Some(v) => token == seq!['-', '-'] + name + seq!['='] + v,
        None => token == seq!['-', '-'] + name,
    }
}

pub proof fn lemma_first_equals_bounds(s: Seq<char>)
    ensures
        0 <= first_equals(s) <= s.len(),
        first_equals(s) < s.len() ==> s[first_equals(s)] == '=',
        forall|j: int| 0 <= j < first_equals(s) ==> s[j] != '=',
    decreases s.len(),
{
    if s.len() == 0 || s[0] == '=' {
    } else {
        let t = s.drop_first();
        lemma_first_equals_bounds(t);
        assert forall|j: int| 0 <= j < first_equals(s) implies s[j] != '=' by {
            if j > 0 {
                assert(s[j] == t[j - 1]);
            }
        }
    }
}

/// A long token splits in one way only: the name ends at the first `=`.
pub proof fn lemma_long_split_unique(token: Seq<char>, name: Seq<char>, value: Option<Seq<char>>)
    requires
        spells_long(token, name, value),
        !name.contains('='),
    ensures
        long_name(token) == name,
        long_value(token) == value,
{
    let rest = token.skip(2);
    lemma_first_equals_bounds(rest);
    let k = first_equals(rest);
    match value {
        Some(v) => {
            assert(rest == name + seq!['='] + v);
            assert(rest[name.len() as int] == '=');
            if k < name.len() {
                assert(rest[k] == name[k]);
                assert(name.contains(name[k]));
            }
            assert(k == name.len());
            assert(rest.take(k) == name);
            assert(rest.skip(k + 1) == v);
        },
        None => {
            assert(rest == name);
            if k < rest.len() {
                assert(name.contains(name[k]));
            }
            assert(rest.take(k) == name);
        },
    }
}

/// The parts that a long token is made of.
pub proof fn lemma_long_parts(token: Seq<char>)
    requires
        is_long(token),
    ensures
        spells_long(token, long_name(token), long_value(token)),
        !long_name(token).contains('='),
{
    let rest = token.skip(2);
    lemma_first_equals_bounds(rest);
    let k = first_equals(rest);
    assert(token == seq!['-', '-'] + rest);
    if k < rest.len() {
        assert(rest == rest.take(k) + seq!['='] + rest.skip(k + 1));
        assert(token == seq!['-', '-'] + rest.take(k) + seq!['='] + rest.skip(k + 1));
    } else {
        assert(rest.take(k) == rest);
    }
    let name = long_name(token);
    if name.contains('=') {
        let j = choose|j: int| 0 <= j < name.len() && name[j] == '=';
        assert(rest[j] == '=');
    }
}

/// The bytes of a long token: two for the hyphens, those of the name and,
/// with an inline value, one for `=` and those of the value.
pub proof fn lemma_long_bytes(token: Seq<char>)
    requires
        is_long(token),
    ensures
        byte_len(token) == 2 + byte_len(long_name(token)) + match long_value(token) {
            Some(value) => 1 + byte_len(value),
            None => 0,
        },
{
    lemma_long_parts(token);
    let name = long_name(token);
    lemma_char_width('-');
    lemma_char_width('=');
    assert(seq!['-', '-'] == seq!['-'] + seq!['-']);
    lemma_encode_concat(seq!['-'], seq!['-']);
    lemma_encode_concat(seq!['-', '-'], name);
    match long_value(token) {
        Some(value) => {
            lemma_encode_concat(seq!['-', '-'] + name, seq!['=']);
            lemma_encode_concat(seq!['-', '-'] + name + seq!['='], value);
        },
        None => {},
    }
}

/// The bytes of a short token: one for the hyphen and those of the cluster.
pub proof fn lemma_short_bytes(token: Seq<char>)
    requires
        is_short(token),
    ensures
        byte_len(token) == 1 + byte_len(short_cluster(token)),
{
    lemma_char_width('-');
    assert(token == seq!['-'] + token.skip(1));
    lemma_encode_concat(seq!['-'], token.skip(1));
}

/// Hands `token` to `clap_lex` (`RawArgs::new`, `RawArgs::next`) and calls
/// `ParsedArg::to_long` on it, which is how `clap_lex` reads a long flag:
/// `None` unless the token starts with `--` and goes on behind it; else the
/// text up to the first `=` as the name and, where there is a `=`, the text
/// behind it as the value.
#[verifier::external_body]
pub(crate) fn lex_long(token: &str) -> (r: Option<(String, Option<String>)>)
    ensures
        r is Some <==> is_long(token@),
        r matches Some((name, value)) ==> !name@.contains('=') && spells_long(
            token@,
            name@,
            text_of(value),
        ),
{
    let raw = clap_lex::RawArgs::new([token]);
    let mut cursor = raw.cursor();
    let (name, value) = raw.next(&mut cursor)?.to_long()?;
    let name = match name {
        Ok(text) => text.to_owned(),
        Err(other) => other.to_string_lossy().into_owned(),
    };
    Some((name, value.map(|v| v.to_string_lossy().into_owned())))
}

/// Hands `token` to `clap_lex` (`RawArgs::new`, `RawArgs::next`), calls
/// `ParsedArg::to_short` on it and takes all of the cluster with
/// `ShortFlags::next_value_os`: `None` unless the token starts with one
/// hyphen and goes on with something other than a hyphen; else the
/// characters behind that hyphen.
#[verifier::external_body]
pub(crate) fn lex_short(token: &str) -> (r: Option<Vec<char>>)
    ensures
        r is Some <==> is_short(token@),
        r matches Some(cluster) ==> cluster@ == short_cluster(token@),
{
    let raw = clap_lex::RawArgs::new([token]);
    let mut cursor = raw.cursor();
    let rest = raw.next(&mut cursor)?.to_short()?.next_value_os()?;
    Some(rest.to_string_lossy().chars().collect())
}

/// A token as `clap_lex` reads it.
#[derive(Debug, PartialEq, Eq)]
pub enum Token {
    /// `--name` or `--name=value`.
    Long { name: String, value: Option<String> },
    /// `-` and the characters behind it.
    Short { cluster: Vec<char> },
    /// Anything else.
    Plain,
}

/// Reads `token` as a long name, as a cluster of short names or as a plain value.
pub fn classify(token: &str) -> (r: Token)
    ensures
        match r {
            Token::Long { name, value } => is_long(token@) && name@ == long_name(token@)
                && text_of(value) == long_value(token@),
            Token::Short { cluster } => is_short(token@) && cluster@ == short_cluster(token@),
            Token::Plain => is_plain(token@),
        },
{
    match lex_long(token) {
        Some((name, value)) => {
            proof {
                lemma_long_split_unique(token@, name@, text_of(value));
            }
            Token::Long { name, value }
        },
        None => match lex_short(token) {
            Some(cluster) => Token::Short { cluster },
            None => Token::Plain,
        },
    }
}


/// The name of a long token lies within the token.
pub proof fn lemma_long_name_within(token: Seq<char>)
    requires
        is_long(token),
    ensures
        2 + long_name(token).len() <= token.len(),
{
    lemma_first_equals_bounds(token.skip(2));
}

} // verus!
