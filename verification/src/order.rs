//! The order of aliases: long names before short ones, long names by their
//! bytes, short names by their code points.

use crate::alias::{AliasKey, ArgAlias};
use vstd::prelude::*;
use vstd::utf8::{encode_utf8, encode_utf8_decode_utf8};

verus! {

/// Whether `a` stands before `b` in the order of the dictionary, byte by byte.
pub open spec fn bytes_before(a: Seq<u8>, b: Seq<u8>) -> bool
    decreases a.len(),
{
    if b.len() == 0 {
        false
    } else if a.len() == 0 {
        true
    } else if a[0] != b[0] {
        a[0] < b[0]
    } else {
        bytes_before(a.drop_first(), b.drop_first())
    }
}

/// Whether alias `a` stands before alias `b`.
pub open spec fn key_before(a: AliasKey, b: AliasKey) -> bool {
    match (a, b) {
        (AliasKey::Long(x), AliasKey::Long(y)) => bytes_before(encode_utf8(x), encode_utf8(y)),
        (AliasKey::Long(_), AliasKey::Short(_)) => true,
        (AliasKey::Short(_), AliasKey::Long(_)) => false,
        (AliasKey::Short(x), AliasKey::Short(y)) => (x as u32) < (y as u32),
    }
}

pub proof fn lemma_bytes_apart(a: Seq<u8>, b: Seq<u8>)
    ensures
        !(bytes_before(a, b) && bytes_before(b, a)),
        !bytes_before(a, b) && !bytes_before(b, a) ==> a == b,
    decreases a.len(),
{
    if a.len() > 0 && b.len() > 0 && a[0] == b[0] {
        lemma_bytes_apart(a.drop_first(), b.drop_first());
        if a.drop_first() == b.drop_first() {
            assert(a == seq![a[0]] + a.drop_first());
            assert(b == seq![b[0]] + b.drop_first());
        }
    } else if a.len() == 0 && b.len() == 0 {
        assert(a == b);
    }
}

pub proof fn lemma_bytes_chain(a: Seq<u8>, b: Seq<u8>, c: Seq<u8>)
    requires
        bytes_before(a, b),
        bytes_before(b, c),
    ensures
        bytes_before(a, c),
    decreases a.len(),
{
    if a.len() > 0 && a[0] == b[0] && b[0] == c[0] {
        lemma_bytes_chain(a.drop_first(), b.drop_first(), c.drop_first());
    }
}

/// Of two aliases exactly one holds: the first stands before the second,
/// the second before the first, or they are the same.
pub proof fn lemma_keys_apart(a: AliasKey, b: AliasKey)
    ensures
        !(key_before(a, b) && key_before(b, a)),
        !key_before(a, b) && !key_before(b, a) <==> a == b,
{
    match (a, b) {
        (AliasKey::Long(x), AliasKey::Long(y)) => {
            lemma_bytes_apart(encode_utf8(x), encode_utf8(y));
            encode_utf8_decode_utf8(x);
            encode_utf8_decode_utf8(y);
        },
        (AliasKey::Short(x), AliasKey::Short(y)) => {
            if x as u32 == y as u32 {
                vstd::utf8::char_u32_cast(x, x as u32);
                vstd::utf8::char_u32_cast(y, y as u32);
            }
        },
        _ => {},
    }
}

/// The order of aliases is transitive.
pub proof fn lemma_keys_chain(a: AliasKey, b: AliasKey, c: AliasKey)
    requires
        key_before(a, b),
        key_before(b, c),
    ensures
        key_before(a, c),
{
    match (a, b, c) {
        (AliasKey::Long(x), AliasKey::Long(y), AliasKey::Long(z)) => {
            lemma_bytes_chain(encode_utf8(x), encode_utf8(y), encode_utf8(z));
        },
        _ => {},
    }
}

/// Whether the bytes of `a` stand before those of `b`.
fn text_before(a: &str, b: &str) -> (r: bool)
    ensures
        r == bytes_before(encode_utf8(a@), encode_utf8(b@)),
{
    let x = a.as_bytes();
    let y = b.as_bytes();
    let mut i: usize = 0;
    assert(x@.skip(0) == x@ && y@.skip(0) == y@);
    while i < x.len() && i < y.len()
        invariant
            i <= x@.len(),
            i <= y@.len(),
            x@ == encode_utf8(a@),
            y@ == encode_utf8(b@),
            bytes_before(x@, y@) == bytes_before(x@.skip(i as int), y@.skip(i as int)),
        decreases x.len() - i,
    {
        proof {
            assert(x@.skip(i as int).drop_first() == x@.skip(i + 1));
            assert(y@.skip(i as int).drop_first() == y@.skip(i + 1));
        }
        if x[i] != y[i] {
            return x[i] < y[i];
        }
        i = i + 1;
    }
    i < y.len()
}

impl ArgAlias {
    /// Whether this alias stands before `other`: a long name before every
    /// short one, long names by their bytes, short names by their code points.
    pub fn before(&self, other: &ArgAlias) -> (r: bool)
        ensures
            r == key_before(self@, other@),
    {
        match (self, other) {
            (ArgAlias::Long(x), ArgAlias::Long(y)) => text_before(x.as_str(), y.as_str()),
            (ArgAlias::Long(_), ArgAlias::Short(_)) => true,
            (ArgAlias::Short(_), ArgAlias::Long(_)) => false,
            (ArgAlias::Short(x), ArgAlias::Short(y)) => (*x as u32) < (*y as u32),
        }
    }
}

} // verus!
