//! Byte lengths of text and the flattened argv string.
//!
//! Tokens are text; every offset and length that the crate reports counts
//! bytes of the UTF-8 encoding.

use vstd::prelude::*;
use vstd::utf8::*;

verus! {

/// The character that stands between two tokens of the argv string.
pub const SEPARATOR: char = ' ';

/// The texts of a sequence of strings.
pub open spec fn texts(strings: Seq<String>) -> Seq<Seq<char>> {
    Seq::new(strings.len(), |i: int| strings[i]@)
}

/// Number of bytes that `s` takes up in UTF-8.
pub open spec fn byte_len(s: Seq<char>) -> nat {
    encode_utf8(s).len()
}

/// The `count` tokens from `from` on, joined with one separator between
/// neighbours.
pub open spec fn run(tokens: Seq<Seq<char>>, from: int, count: nat) -> Seq<char>
    decreases count,
{
    if count == 0 {
        Seq::empty()
    } else if count == 1 {
        tokens[from]
    } else {
        tokens[from] + seq![SEPARATOR] + run(tokens, from + 1, (count - 1) as nat)
    }
}

/// The argv string: all tokens joined with single separators, as a shell
/// command line would show them.
pub open spec fn argv_string(tokens: Seq<Seq<char>>) -> Seq<char> {
    run(tokens, 0, tokens.len())
}

/// What stands in the argv string before token `i`: the tokens before it,
/// each with its separator.
pub open spec fn head(tokens: Seq<Seq<char>>, i: int) -> Seq<char> {
    if i <= 0 {
        Seq::empty()
    } else {
        run(tokens, 0, i as nat) + seq![SEPARATOR]
    }
}

/// What stands in the argv string from the end of token `j - 1` on: the
/// tokens from `j` on, each with a separator before it.
pub open spec fn rest_after(tokens: Seq<Seq<char>>, j: int) -> Seq<char> {
    if j >= tokens.len() {
        Seq::empty()
    } else {
        seq![SEPARATOR] + run(tokens, j, (tokens.len() - j) as nat)
    }
}

/// Bytes taken up by the `count` tokens from `from` on, each followed by one
/// separator.
pub open spec fn span_len(tokens: Seq<Seq<char>>, from: int, count: nat) -> nat
    decreases count,
{
    if count == 0 || from < 0 || from >= tokens.len() {
        0
    } else {
        byte_len(tokens[from]) + 1 + span_len(tokens, from + 1, (count - 1) as nat)
    }
}

/// Byte offset in the argv string at which token `i` starts.
pub open spec fn token_start(tokens: Seq<Seq<char>>, i: int) -> nat {
    span_len(tokens, 0, if i < 0 { 0 } else { i as nat })
}

/// Encoding distributes over concatenation.
pub proof fn lemma_encode_concat(a: Seq<char>, b: Seq<char>)
    ensures
        encode_utf8(a + b) == encode_utf8(a) + encode_utf8(b),
        byte_len(a + b) == byte_len(a) + byte_len(b),
    decreases a.len(),
{
    if a.len() == 0 {
        assert(a + b == b);
        assert(encode_utf8(a) + encode_utf8(b) == encode_utf8(b));
    } else {
        let ab = a + b;
        assert(ab.drop_first() == a.drop_first() + b);
        assert(ab[0] == a[0]);
        lemma_encode_concat(a.drop_first(), b);
        assert(encode_utf8(ab) == encode_scalar(a[0] as u32) + (encode_utf8(a.drop_first())
            + encode_utf8(b)));
        assert(encode_utf8(ab) == encode_utf8(a) + encode_utf8(b));
    }
}

/// A text splits into two parts whose bytes add up.
pub proof fn lemma_byte_len_split(s: Seq<char>, k: int)
    requires
        0 <= k <= s.len(),
    ensures
        byte_len(s) == byte_len(s.take(k)) + byte_len(s.skip(k)),
{
    assert(s == s.take(k) + s.skip(k));
    lemma_encode_concat(s.take(k), s.skip(k));
}

/// A text has at least as many bytes as characters.
pub proof fn lemma_chars_le_bytes(s: Seq<char>)
    ensures
        s.len() <= byte_len(s),
    decreases s.len(),
{
    if s.len() > 0 {
        lemma_chars_le_bytes(s.drop_first());
        lemma_char_width(s[0]);
        assert(s == seq![s[0]] + s.drop_first());
        lemma_encode_concat(seq![s[0]], s.drop_first());
    }
}

/// A run of tokens splits into two runs whose bytes add up.
pub proof fn lemma_span_split(tokens: Seq<Seq<char>>, from: int, a: nat, b: nat)
    requires
        0 <= from,
        from + a <= tokens.len(),
    ensures
        span_len(tokens, from, a + b) == span_len(tokens, from, a) + span_len(tokens, from + a, b),
    decreases a,
{
    if a > 0 {
        lemma_span_split(tokens, from + 1, (a - 1) as nat, b);
        assert((a + b - 1) as nat == (a - 1) as nat + b);
    }
}

/// Later tokens start further right.
pub proof fn lemma_token_start_monotone(tokens: Seq<Seq<char>>, i: int, j: int)
    requires
        0 <= i <= j <= tokens.len(),
    ensures
        token_start(tokens, i) + span_len(tokens, i, (j - i) as nat) == token_start(tokens, j),
        token_start(tokens, i) <= token_start(tokens, j),
{
    lemma_span_split(tokens, 0, i as nat, (j - i) as nat);
    assert(i as nat + (j - i) as nat == j as nat);
}

/// Token `i` fills the argv string from where it starts to one separator
/// before the next token starts, and no token starts behind the end of the
/// argv string and its separator.
pub proof fn lemma_token_span(tokens: Seq<Seq<char>>, i: int)
    requires
        0 <= i < tokens.len(),
    ensures
        token_start(tokens, i) + byte_len(tokens[i]) + 1 == token_start(tokens, i + 1),
        span_len(tokens, i, 1) == byte_len(tokens[i]) + 1,
        token_start(tokens, i + 1) <= token_start(tokens, tokens.len() as int),
{
    lemma_token_start_monotone(tokens, i, i + 1);
    lemma_token_start_monotone(tokens, i + 1, tokens.len() as int);
    assert(span_len(tokens, i, 1) == byte_len(tokens[i]) + 1 + span_len(tokens, i + 1, 0));
}

/// Every character takes between one and four bytes.
pub proof fn lemma_char_width(c: char)
    ensures
        1 <= byte_len(seq![c]) <= 4,
        byte_len(seq![c]) == encode_scalar(c as u32).len(),
        ('\0' <= c <= '\u{7f}') ==> byte_len(seq![c]) == 1,
{
    let s = seq![c];
    assert(s.drop_first() == Seq::<char>::empty());
    assert(encode_utf8(s.drop_first()).len() == 0);
    assert(encode_utf8(s) == encode_scalar(c as u32) + encode_utf8(s.drop_first()));
}

/// Number of bytes that `c` takes up in UTF-8.
pub fn char_width(c: char) -> (n: usize)
    ensures
        n == byte_len(seq![c]),
        1 <= n <= 4,
{
    proof {
        lemma_char_width(c);
    }
    let u: u32 = c as u32;
    if u < 0x80 {
        1
    } else if u < 0x800 {
        2
    } else if u < 0x10000 {
        proof {
            char_is_scalar(c);
        }
        3
    } else {
        4
    }
}

/// Number of bytes that the characters of `chars` from `from` on take up.
pub fn tail_byte_len(chars: &Vec<char>, from: usize) -> (n: usize)
    requires
        from <= chars.len(),
        byte_len(chars@) <= usize::MAX,
    ensures
        n == byte_len(chars@.skip(from as int)),
{
    let mut n: usize = 0;
    let mut i: usize = chars.len();
    proof {
        assert(chars@.skip(i as int) == Seq::<char>::empty());
    }
    while i > from
        invariant
            from <= i <= chars.len(),
            n == byte_len(chars@.skip(i as int)),
            byte_len(chars@) <= usize::MAX,
        decreases i,
    {
        i = i - 1;
        let w = char_width(chars[i]);
        proof {
            let tail = chars@.skip(i as int);
            assert(tail == seq![chars@[i as int]] + chars@.skip(i as int + 1));
            lemma_encode_concat(seq![chars@[i as int]], chars@.skip(i as int + 1));
            assert(chars@ == chars@.take(i as int) + tail);
            lemma_encode_concat(chars@.take(i as int), tail);
        }
        n = n + w;
    }
    n
}


/// A run of tokens splits into two runs with a separator between them.
pub proof fn lemma_run_split(tokens: Seq<Seq<char>>, from: int, a: nat, b: nat)
    requires
        a >= 1,
        b >= 1,
    ensures
        run(tokens, from, a + b) == run(tokens, from, a) + seq![SEPARATOR] + run(
            tokens,
            from + a,
            b,
        ),
    decreases a,
{
    if a > 1 {
        lemma_run_split(tokens, from + 1, (a - 1) as nat, b);
        assert((a + b - 1) as nat == (a - 1) as nat + b);
        let first = tokens[from] + seq![SEPARATOR];
        assert(run(tokens, from, a + b) == first + (run(tokens, from + 1, (a - 1) as nat)
            + seq![SEPARATOR] + run(tokens, from + a, b)));
        assert(run(tokens, from, a) == first + run(tokens, from + 1, (a - 1) as nat));
    } else {
        assert((a + b - 1) as nat == b);
    }
}

/// A run of tokens has the bytes of its tokens and one byte for each
/// separator between them.
pub proof fn lemma_run_bytes(tokens: Seq<Seq<char>>, from: int, count: nat)
    requires
        0 <= from,
        from + count <= tokens.len(),
        count >= 1,
    ensures
        byte_len(run(tokens, from, count)) + 1 == span_len(tokens, from, count),
    decreases count,
{
    lemma_char_width(SEPARATOR);
    if count > 1 {
        lemma_run_bytes(tokens, from + 1, (count - 1) as nat);
        lemma_encode_concat(tokens[from], seq![SEPARATOR]);
        lemma_encode_concat(
            tokens[from] + seq![SEPARATOR],
            run(tokens, from + 1, (count - 1) as nat),
        );
    } else {
        assert(span_len(tokens, from + 1, 0) == 0);
    }
}

/// The head before token `i` ends where the token starts.
pub proof fn lemma_head_bytes(tokens: Seq<Seq<char>>, i: int)
    requires
        0 <= i <= tokens.len(),
    ensures
        byte_len(head(tokens, i)) == token_start(tokens, i),
{
    if i > 0 {
        lemma_run_bytes(tokens, 0, i as nat);
        lemma_char_width(SEPARATOR);
        lemma_encode_concat(run(tokens, 0, i as nat), seq![SEPARATOR]);
    }
}

/// The argv string is made of what stands before token `i`, the `count`
/// tokens from `i` on, and what stands behind them.
pub proof fn lemma_argv_parts(tokens: Seq<Seq<char>>, i: int, count: nat)
    requires
        0 <= i,
        count >= 1,
        i + count <= tokens.len(),
    ensures
        argv_string(tokens) == head(tokens, i) + run(tokens, i, count) + rest_after(
            tokens,
            i + count,
        ),
{
    let n = tokens.len();
    let middle = run(tokens, i, count);
    if i > 0 {
        lemma_run_split(tokens, 0, i as nat, (n - i) as nat);
        assert(i as nat + (n - i) as nat == n);
    }
    if i + count < n {
        lemma_run_split(tokens, i, count, (n - i - count) as nat);
        assert(count + (n - i - count) as nat == (n - i) as nat);
    }
    let whole = run(tokens, i, (n - i) as nat);
    assert(whole == middle + rest_after(tokens, i + count));
    assert(argv_string(tokens) == head(tokens, i) + whole);
    assert(head(tokens, i) + (middle + rest_after(tokens, i + count)) == head(tokens, i) + middle
        + rest_after(tokens, i + count));
}

} // verus!
