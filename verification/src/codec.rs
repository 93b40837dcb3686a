//! Byte-level primitives shared by the container header and the root message:
//! little-endian integers, length-prefixed byte blocks, and length-prefixed
//! UTF-8 text.
//!
//! Every parser has a specification-level twin (`sp_*`) that says exactly
//! which bytes are accepted and what value they denote; every writer appends
//! exactly the bytes of the matching `enc_*` function.  The `lemma_parse_*`
//! lemmas state that parsing an encoding yields the encoded value back.

use vstd::prelude::*;
use vstd::bytes::{
    spec_u32_to_le_bytes, spec_u32_from_le_bytes, lemma_auto_spec_u32_to_from_le_bytes,
    spec_u64_to_le_bytes, spec_u64_from_le_bytes, lemma_auto_spec_u64_to_from_le_bytes,
    u32_from_le_bytes, u64_from_le_bytes, u32_to_le_bytes, u64_to_le_bytes,
};
use vstd::slice::{slice_subrange, slice_to_vec};
use vstd::utf8::{valid_utf8, decode_utf8, encode_utf8, encode_utf8_valid_utf8, encode_utf8_decode_utf8};

verus! {

// ---------------------------------------------------------------------------
// Specification-level parsers.  Each takes the whole byte sequence and a
// cursor, and yields the parsed value with the cursor past it, or `None`.
// ---------------------------------------------------------------------------

/// Parse one byte.
pub open spec fn sp_u8(b: Seq<u8>, off: int) -> Option<(u8, int)> {
    if 0 <= off && off + 1 <= b.len() {
        Some((b[off], off + 1))
    } else {
        None
    }
}

/// Parse a little-endian 32-bit integer.
pub open spec fn sp_u32(b: Seq<u8>, off: int) -> Option<(u32, int)> {
    if 0 <= off && off + 4 <= b.len() {
        Some((spec_u32_from_le_bytes(b.subrange(off, off + 4)), off + 4))
    } else {
        None
    }
}

/// Parse a little-endian 64-bit integer.
pub open spec fn sp_u64(b: Seq<u8>, off: int) -> Option<(u64, int)> {
    if 0 <= off && off + 8 <= b.len() {
        Some((spec_u64_from_le_bytes(b.subrange(off, off + 8)), off + 8))
    } else {
        None
    }
}

/// Parse a raw block of exactly `n` bytes.
pub open spec fn sp_block(b: Seq<u8>, off: int, n: int) -> Option<(Seq<u8>, int)> {
    if 0 <= off && 0 <= n && off + n <= b.len() {
        Some((b.subrange(off, off + n), off + n))
    } else {
        None
    }
}

/// Parse a length-prefixed byte block: a 32-bit count followed by the bytes.
pub open spec fn sp_bytes(b: Seq<u8>, off: int) -> Option<(Seq<u8>, int)> {
    match sp_u32(b, off) {
        None => None,
        Some((n, o2)) => sp_block(b, o2, n as int),
    }
}

/// Parse length-prefixed text: a byte block that must be valid UTF-8.
pub open spec fn sp_str(b: Seq<u8>, off: int) -> Option<(Seq<char>, int)> {
    match sp_bytes(b, off) {
        None => None,
        Some((bs, o2)) => if valid_utf8(bs) {
            Some((decode_utf8(bs), o2))
        } else {
            None
        },
    }
}

// ---------------------------------------------------------------------------
// Specification-level encoders.
// ---------------------------------------------------------------------------

/// Encode a length-prefixed byte block.
pub open spec fn enc_bytes(s: Seq<u8>) -> Seq<u8>
    recommends
        s.len() <= u32::MAX,
{
    spec_u32_to_le_bytes(s.len() as u32) + s
}

/// Encode length-prefixed text as UTF-8.
pub open spec fn enc_str(s: Seq<char>) -> Seq<u8>
    recommends
        encode_utf8(s).len() <= u32::MAX,
{
    enc_bytes(encode_utf8(s))
}

// ---------------------------------------------------------------------------
// Executable parsers, each exactly mirroring its specification twin.
// ---------------------------------------------------------------------------

/// Read one byte at `off`.
pub fn parse_u8(data: &[u8], off: usize) -> (r: Option<(u8, usize)>)
    requires
        off <= data@.len(),
    ensures
        match r {
            Some(p) => sp_u8(data@, off as int) == Some((p.0, p.1 as int)),
            None => sp_u8(data@, off as int) is None,
        },
{
    if data.len() - off >= 1 {
        Some((data[off], off + 1))
    } else {
        None
    }
}

/// Read a little-endian 32-bit integer at `off`.
pub fn parse_u32(data: &[u8], off: usize) -> (r: Option<(u32, usize)>)
    requires
        off <= data@.len(),
    ensures
        match r {
            Some(p) => sp_u32(data@, off as int) == Some((p.0, p.1 as int)),
            None => sp_u32(data@, off as int) is None,
        },
{
    if data.len() - off >= 4 {
        let x = u32_from_le_bytes(slice_subrange(data, off, off + 4));
        Some((x, off + 4))
    } else {
        None
    }
}

/// Read a little-endian 64-bit integer at `off`.
pub fn parse_u64(data: &[u8], off: usize) -> (r: Option<(u64, usize)>)
    requires
        off <= data@.len(),
    ensures
        match r {
            Some(p) => sp_u64(data@, off as int) == Some((p.0, p.1 as int)),
            None => sp_u64(data@, off as int) is None,
        },
{
    if data.len() - off >= 8 {
        let x = u64_from_le_bytes(slice_subrange(data, off, off + 8));
        Some((x, off + 8))
    } else {
        None
    }
}

/// Read a raw block of exactly `n` bytes at `off`.
pub fn parse_block(data: &[u8], off: usize, n: usize) -> (r: Option<(Vec<u8>, usize)>)
    requires
        off <= data@.len(),
    ensures
        match r {
            Some(p) => sp_block(data@, off as int, n as int) == Some((p.0@, p.1 as int)),
            None => sp_block(data@, off as int, n as int) is None,
        },
{
    if data.len() - off >= n {
        let v = slice_to_vec(slice_subrange(data, off, off + n));
        Some((v, off + n))
    } else {
        None
    }
}

/// Read a length-prefixed byte block at `off`.
pub fn parse_bytes(data: &[u8], off: usize) -> (r: Option<(Vec<u8>, usize)>)
    requires
        off <= data@.len(),
    ensures
        match r {
            Some(p) => sp_bytes(data@, off as int) == Some((p.0@, p.1 as int)),
            None => sp_bytes(data@, off as int) is None,
        },
{
    match parse_u32(data, off) {
        None => None,
        Some((n, o2)) => parse_block(data, o2, n as usize),
    }
}

/// Read length-prefixed UTF-8 text at `off`.
pub fn parse_str(data: &[u8], off: usize) -> (r: Option<(String, usize)>)
    requires
        off <= data@.len(),
    ensures
        match r {
            Some(p) => sp_str(data@, off as int) == Some((p.0@, p.1 as int)),
            None => sp_str(data@, off as int) is None,
        },
{
    match parse_bytes(data, off) {
        None => None,
        Some((bs, o2)) => match string_from_utf8(bs) {
            None => None,
            Some(s) => {
                proof {
                    encode_utf8_decode_utf8(s@);
                }
                Some((s, o2))
            },
        },
    }
}

// ---------------------------------------------------------------------------
// Executable writers.
// ---------------------------------------------------------------------------

/// Append one byte.
pub fn put_u8(out: &mut Vec<u8>, x: u8)
    ensures
        final(out)@ == old(out)@ + seq![x],
{
    out.push(x);
    proof {
        assert(final(out)@ =~= old(out)@ + seq![x]);
    }
}

/// Append a 32-bit integer in little-endian order.
pub fn put_u32(out: &mut Vec<u8>, x: u32)
    ensures
        final(out)@ == old(out)@ + spec_u32_to_le_bytes(x),
{
    let mut b = u32_to_le_bytes(x);
    out.append(&mut b);
}

/// Append a 64-bit integer in little-endian order.
pub fn put_u64(out: &mut Vec<u8>, x: u64)
    ensures
        final(out)@ == old(out)@ + spec_u64_to_le_bytes(x),
{
    let mut b = u64_to_le_bytes(x);
    out.append(&mut b);
}

/// Append a length-prefixed byte block.
pub fn put_bytes(out: &mut Vec<u8>, b: &[u8])
    requires
        b@.len() <= u32::MAX,
    ensures
        final(out)@ == old(out)@ + enc_bytes(b@),
{
    put_u32(out, b.len() as u32);
    out.extend_from_slice(b);
    proof {
        assert(final(out)@ =~= old(out)@ + enc_bytes(b@));
    }
}

/// Append length-prefixed UTF-8 text.
pub fn put_str(out: &mut Vec<u8>, s: &str)
    requires
        encode_utf8(s@).len() <= u32::MAX,
    ensures
        final(out)@ == old(out)@ + enc_str(s@),
{
    put_bytes(out, s.as_bytes());
}

// ---------------------------------------------------------------------------
// Round-trip lemmas: parsing an encoding embedded in a larger sequence
// yields the encoded value and stops right past it.
// ---------------------------------------------------------------------------

/// Parsing four bytes that encode `x` yields `x`.
pub proof fn lemma_parse_u32_of_enc(b: Seq<u8>, off: int, x: u32)
    requires
        0 <= off,
        off + 4 <= b.len(),
        b.subrange(off, off + 4) == spec_u32_to_le_bytes(x),
    ensures
        sp_u32(b, off) == Some((x, off + 4)),
{
    lemma_auto_spec_u32_to_from_le_bytes();
    assert(spec_u32_to_le_bytes(x).len() == 4);
    assert(spec_u32_from_le_bytes(spec_u32_to_le_bytes(x)) == x);
}

/// Parsing eight bytes that encode `x` yields `x`.
pub proof fn lemma_parse_u64_of_enc(b: Seq<u8>, off: int, x: u64)
    requires
        0 <= off,
        off + 8 <= b.len(),
        b.subrange(off, off + 8) == spec_u64_to_le_bytes(x),
    ensures
        sp_u64(b, off) == Some((x, off + 8)),
{
    lemma_auto_spec_u64_to_from_le_bytes();
    assert(spec_u64_to_le_bytes(x).len() == 8);
    assert(spec_u64_from_le_bytes(spec_u64_to_le_bytes(x)) == x);
}

/// Parsing a length-prefixed block that encodes `s` yields `s`.
pub proof fn lemma_parse_bytes_of_enc(b: Seq<u8>, off: int, s: Seq<u8>)
    requires
        0 <= off,
        s.len() <= u32::MAX,
        off + enc_bytes(s).len() <= b.len(),
        b.subrange(off, off + enc_bytes(s).len()) == enc_bytes(s),
    ensures
        sp_bytes(b, off) == Some((s, off + enc_bytes(s).len())),
{
    lemma_auto_spec_u32_to_from_le_bytes();
    let n = s.len() as u32;
    let total = enc_bytes(s).len() as int;
    assert(b.subrange(off, off + 4) =~= enc_bytes(s).subrange(0, 4));
    assert(enc_bytes(s).subrange(0, 4) =~= spec_u32_to_le_bytes(n));
    lemma_parse_u32_of_enc(b, off, n);
    assert(b.subrange(off + 4, off + total) =~= enc_bytes(s).subrange(4, total));
    assert(enc_bytes(s).subrange(4, total) =~= s);
}

/// Parsing a length-prefixed text block that encodes `s` yields `s`.
pub proof fn lemma_parse_str_of_enc(b: Seq<u8>, off: int, s: Seq<char>)
    requires
        0 <= off,
        encode_utf8(s).len() <= u32::MAX,
        off + enc_str(s).len() <= b.len(),
        b.subrange(off, off + enc_str(s).len()) == enc_str(s),
    ensures
        sp_str(b, off) == Some((s, off + enc_str(s).len())),
{
    lemma_parse_bytes_of_enc(b, off, encode_utf8(s));
    encode_utf8_valid_utf8(s);
    encode_utf8_decode_utf8(s);
}

// ---------------------------------------------------------------------------
// Equality helpers.
// ---------------------------------------------------------------------------

/// Compare two byte slices for equality.
pub fn bytes_eq(a: &[u8], b: &[u8]) -> (r: bool)
    ensures
        r <==> a@ == b@,
{
    if a.len() != b.len() {
        return false;
    }
    let n = a.len();
    for i in 0..n
        invariant
            n == a@.len(),
            a@.len() == b@.len(),
            forall|k: int| 0 <= k < i ==> a@[k] == b@[k],
    {
        if a[i] != b[i] {
            proof {
                assert(a@[i as int] != b@[i as int]);
            }
            return false;
        }
    }
    proof {
        assert(a@ =~= b@);
    }
    true
}

/// Compare two strings for equality of their character sequences.
pub fn str_eq(a: &str, b: &str) -> (r: bool)
    ensures
        r <==> a@ == b@,
{
    let r = bytes_eq(a.as_bytes(), b.as_bytes());
    proof {
        encode_utf8_decode_utf8(a@);
        encode_utf8_decode_utf8(b@);
    }
    r
}

// ---------------------------------------------------------------------------
// Counted lists.  A list of `n` items is the concatenation of the items'
// encodings; the count itself is stored by the caller.
// ---------------------------------------------------------------------------

/// Parse `n` consecutive items, each with the item parser `item`.
pub open spec fn sp_list<T>(
    b: Seq<u8>,
    off: int,
    n: int,
    item: spec_fn(Seq<u8>, int) -> Option<(T, int)>,
) -> Option<(Seq<T>, int)>
    decreases n,
{
    if n <= 0 {
        Some((Seq::empty(), off))
    } else {
        match item(b, off) {
            None => None,
            Some((v, o2)) => match sp_list(b, o2, n - 1, item) {
                None => None,
                Some((rest, o3)) => Some((seq![v] + rest, o3)),
            },
        }
    }
}

/// Encode a list as the concatenation of its items' encodings.
pub open spec fn enc_list<T>(items: Seq<T>, enc: spec_fn(T) -> Seq<u8>) -> Seq<u8>
    decreases items.len(),
{
    if items.len() == 0 {
        Seq::empty()
    } else {
        enc(items[0]) + enc_list(items.drop_first(), enc)
    }
}

/// Appending one item to a list appends its encoding.
pub proof fn lemma_enc_list_push<T>(items: Seq<T>, v: T, enc: spec_fn(T) -> Seq<u8>)
    ensures
        enc_list(items.push(v), enc) == enc_list(items, enc) + enc(v),
    decreases items.len(),
{
    let p = items.push(v);
    if items.len() == 0 {
        assert(p[0] == v);
        assert(p.drop_first() =~= Seq::<T>::empty());
        assert(enc_list(p, enc) == enc(p[0]) + enc_list(p.drop_first(), enc));
        assert(enc_list(p, enc) =~= enc(v));
        assert(enc_list(items, enc) + enc(v) =~= enc(v));
    } else {
        assert(p[0] == items[0]);
        assert(p.drop_first() =~= items.drop_first().push(v));
        lemma_enc_list_push(items.drop_first(), v, enc);
        assert(enc_list(p, enc) == enc(p[0]) + enc_list(p.drop_first(), enc));
        assert(enc_list(items, enc) == enc(items[0]) + enc_list(items.drop_first(), enc));
        assert(enc_list(items, enc) + enc(v) =~= enc(items[0]) + (enc_list(items.drop_first(), enc)
            + enc(v)));
    }
}

/// Parsing the encoding of a list embedded in a larger sequence yields the
/// list back, provided each item's parser inverts its encoder.
pub proof fn lemma_parse_list_of_enc<T>(
    b: Seq<u8>,
    off: int,
    items: Seq<T>,
    enc: spec_fn(T) -> Seq<u8>,
    item: spec_fn(Seq<u8>, int) -> Option<(T, int)>,
)
    requires
        0 <= off,
        off + enc_list(items, enc).len() <= b.len(),
        b.subrange(off, off + enc_list(items, enc).len()) == enc_list(items, enc),
        forall|o: int, i: int|
            #![trigger item(b, o), enc(items[i])]
            0 <= i < items.len() && 0 <= o && o + enc(items[i]).len() <= b.len()
                && b.subrange(o, o + (enc(items[i]).len() as int)) == enc(items[i])
                ==> item(b, o) == Some((items[i], o + enc(items[i]).len())),
    ensures
        sp_list(b, off, items.len() as int, item) == Some((items, off + enc_list(items, enc).len())),
    decreases items.len(),
{
    if items.len() == 0 {
        assert(items =~= Seq::<T>::empty());
    } else {
        let head = items[0];
        let rest = items.drop_first();
        let e_head = enc(head);
        let e_rest = enc_list(rest, enc);
        let total = enc_list(items, enc).len() as int;
        assert(enc_list(items, enc) == e_head + e_rest);
        assert(b.subrange(off, off + e_head.len()) =~= enc_list(items, enc).subrange(
            0,
            e_head.len() as int,
        ));
        assert(enc_list(items, enc).subrange(0, e_head.len() as int) =~= e_head);
        assert(item(b, off) == Some((head, off + e_head.len())));
        let o2 = off + e_head.len() as int;
        assert(b.subrange(o2, o2 + e_rest.len()) =~= enc_list(items, enc).subrange(
            e_head.len() as int,
            total,
        ));
        assert(enc_list(items, enc).subrange(e_head.len() as int, total) =~= e_rest);
        assert(forall|o: int, i: int|
            #![trigger item(b, o), enc(rest[i])]
            0 <= i < rest.len() && 0 <= o && o + enc(rest[i]).len() <= b.len()
                && b.subrange(o, o + (enc(rest[i]).len() as int)) == enc(rest[i])
                ==> item(b, o) == Some((rest[i], o + enc(rest[i]).len()))) by {
            assert(forall|i: int| 0 <= i < rest.len() ==> rest[i] == #[trigger] items[i + 1]);
        }
        lemma_parse_list_of_enc(b, o2, rest, enc, item);
        assert(seq![head] + rest =~= items);
    }
}

// ---------------------------------------------------------------------------
// Trusted bridge for UTF-8 decoding.
// ---------------------------------------------------------------------------

/// Relies on `String::from_utf8`: it succeeds exactly on valid UTF-8 input
/// and the resulting string consists of exactly those bytes.
#[verifier::external_body]
pub fn string_from_utf8(v: Vec<u8>) -> (r: Option<String>)
    ensures
        r is Some <==> valid_utf8(v@),
        match r {
            Some(s) => encode_utf8(s@) == v@,
            None => true,
        },
{
    String::from_utf8(v).ok()
}

} // verus!
