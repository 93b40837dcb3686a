//! The `mesh` column: one row per mesh entity, carrying its vertex buffers.
//!
//! A vertex buffer is an opaque interleaved byte block plus the attributes
//! that describe its layout: each attribute has a name, an element count and
//! an element kind.  Payload layout: a 32-bit row count; per row the entity
//! index, a 32-bit buffer count and the buffers; per buffer the
//! length-prefixed data bytes, a 32-bit attribute count and the attributes;
//! per attribute the length-prefixed UTF-8 name, the 32-bit element count
//! and one byte for the kind.

use vstd::prelude::*;
use vstd::bytes::spec_u32_to_le_bytes;
use vstd::utf8::{encode_utf8, is_ascii_chars, is_ascii_chars_encode_utf8};
use crate::builder::Builder;
use crate::codec::{
    enc_bytes, enc_list, enc_str, lemma_enc_list_push, lemma_parse_bytes_of_enc,
    lemma_parse_list_of_enc, lemma_parse_str_of_enc, lemma_parse_u32_of_enc, parse_bytes,
    parse_str, parse_u8, parse_u32, put_bytes, put_str, put_u8, put_u32, sp_bytes, sp_list,
    sp_str, sp_u8, sp_u32,
};
use crate::message::{col_first_match, ColumnV};
use crate::reader::ReaderMapping;

verus! {

/// The element kind of a vertex attribute.
#[derive(Clone, Copy, Debug, PartialEq, Eq, Structural)]
pub enum AttributeKind {
    F32,
    F64,
    U8,
    U16,
    U32,
    I8,
    I16,
    I32,
    NormalizedU8,
    NormalizedU16,
    NormalizedU32,
    NormalizedI8,
    NormalizedI16,
    NormalizedI32,
}

/// One attribute of an interleaved vertex buffer.
#[derive(Clone, Debug, PartialEq, Eq)]
pub struct Attribute {
    pub name: String,
    pub element_count: u32,
    pub kind: AttributeKind,
}

/// An interleaved vertex buffer: opaque data plus its layout.
#[derive(Clone, Debug, PartialEq, Eq)]
pub struct VertexBuffer {
    pub data: Vec<u8>,
    pub attributes: Vec<Attribute>,
}

/// The mathematical view of an attribute.
pub struct AttrV {
    pub name: Seq<char>,
    pub element_count: u32,
    pub kind: AttributeKind,
}

/// The mathematical view of a vertex buffer.
pub struct BufV {
    pub data: Seq<u8>,
    pub attributes: Seq<AttrV>,
}

impl View for Attribute {
    type V = AttrV;

    open spec fn view(&self) -> AttrV {
        AttrV { name: self.name@, element_count: self.element_count, kind: self.kind }
    }
}

impl View for VertexBuffer {
    type V = BufV;

    open spec fn view(&self) -> BufV {
        BufV {
            data: self.data@,
            attributes: self.attributes@.map_values(|a: Attribute| a@),
        }
    }
}

/// The mathematical view of a row list.
pub open spec fn rows_view(s: Seq<(u32, Vec<VertexBuffer>)>) -> Seq<(u32, Seq<BufV>)> {
    s.map_values(|r: (u32, Vec<VertexBuffer>)| (r.0, r.1@.map_values(|b: VertexBuffer| b@)))
}

/// The stored byte for an attribute kind.
pub open spec fn kind_tag(k: AttributeKind) -> u8 {
    match k {
        AttributeKind::F32 => 0u8,
        AttributeKind::F64 => 1u8,
        AttributeKind::U8 => 2u8,
        AttributeKind::U16 => 3u8,
        AttributeKind::U32 => 4u8,
        AttributeKind::I8 => 5u8,
        AttributeKind::I16 => 6u8,
        AttributeKind::I32 => 7u8,
        AttributeKind::NormalizedU8 => 8u8,
        AttributeKind::NormalizedU16 => 9u8,
        AttributeKind::NormalizedU32 => 10u8,
        AttributeKind::NormalizedI8 => 11u8,
        AttributeKind::NormalizedI16 => 12u8,
        AttributeKind::NormalizedI32 => 13u8,
    }
}

/// Decode a stored attribute-kind byte.
pub open spec fn sp_kind(t: u8) -> Option<AttributeKind> {
    if t == 0 {
        Some(AttributeKind::F32)
    } else if t == 1 {
        Some(AttributeKind::F64)
    } else if t == 2 {
        Some(AttributeKind::U8)
    } else if t == 3 {
        Some(AttributeKind::U16)
    } else if t == 4 {
        Some(AttributeKind::U32)
    } else if t == 5 {
        Some(AttributeKind::I8)
    } else if t == 6 {
        Some(AttributeKind::I16)
    } else if t == 7 {
        Some(AttributeKind::I32)
    } else if t == 8 {
        Some(AttributeKind::NormalizedU8)
    } else if t == 9 {
        Some(AttributeKind::NormalizedU16)
    } else if t == 10 {
        Some(AttributeKind::NormalizedU32)
    } else if t == 11 {
        Some(AttributeKind::NormalizedI8)
    } else if t == 12 {
        Some(AttributeKind::NormalizedI16)
    } else if t == 13 {
        Some(AttributeKind::NormalizedI32)
    } else {
        None
    }
}

/// Encode one attribute.
pub open spec fn enc_attr(a: AttrV) -> Seq<u8> {
    enc_str(a.name) + spec_u32_to_le_bytes(a.element_count) + seq![kind_tag(a.kind)]
}

/// The attribute encoder as a function value.
pub open spec fn enc_attr_fn() -> spec_fn(AttrV) -> Seq<u8> {
    |a: AttrV| enc_attr(a)
}

/// Parse one attribute.
pub open spec fn sp_attr(b: Seq<u8>, off: int) -> Option<(AttrV, int)> {
    match sp_str(b, off) {
        None => None,
        Some((name, o1)) => match sp_u32(b, o1) {
            None => None,
            Some((element_count, o2)) => match sp_u8(b, o2) {
                None => None,
                Some((t, o3)) => match sp_kind(t) {
                    None => None,
                    Some(kind) => Some((AttrV { name, element_count, kind }, o3)),
                },
            },
        },
    }
}

/// The attribute parser as a function value.
pub open spec fn sp_attr_fn() -> spec_fn(Seq<u8>, int) -> Option<(AttrV, int)> {
    |b: Seq<u8>, off: int| sp_attr(b, off)
}

/// Encode one vertex buffer.
pub open spec fn enc_buf(v: BufV) -> Seq<u8> {
    enc_bytes(v.data) + spec_u32_to_le_bytes(v.attributes.len() as u32) + enc_list(
        v.attributes,
        enc_attr_fn(),
    )
}

/// The buffer encoder as a function value.
pub open spec fn enc_buf_fn() -> spec_fn(BufV) -> Seq<u8> {
    |v: BufV| enc_buf(v)
}

/// Parse one vertex buffer.
pub open spec fn sp_buf(b: Seq<u8>, off: int) -> Option<(BufV, int)> {
    match sp_bytes(b, off) {
        None => None,
        Some((data, o1)) => match sp_u32(b, o1) {
            None => None,
            Some((n, o2)) => match sp_list(b, o2, n as int, sp_attr_fn()) {
                None => None,
                Some((attributes, o3)) => Some((BufV { data, attributes }, o3)),
            },
        },
    }
}

/// The buffer parser as a function value.
pub open spec fn sp_buf_fn() -> spec_fn(Seq<u8>, int) -> Option<(BufV, int)> {
    |b: Seq<u8>, off: int| sp_buf(b, off)
}

/// Encode one row.
pub open spec fn enc_row(r: (u32, Seq<BufV>)) -> Seq<u8> {
    spec_u32_to_le_bytes(r.0) + spec_u32_to_le_bytes(r.1.len() as u32) + enc_list(
        r.1,
        enc_buf_fn(),
    )
}

/// The row encoder as a function value.
pub open spec fn enc_row_fn() -> spec_fn((u32, Seq<BufV>)) -> Seq<u8> {
    |r: (u32, Seq<BufV>)| enc_row(r)
}

/// Parse one row.
pub open spec fn sp_row(b: Seq<u8>, off: int) -> Option<((u32, Seq<BufV>), int)> {
    match sp_u32(b, off) {
        None => None,
        Some((id, o1)) => match sp_u32(b, o1) {
            None => None,
            Some((n, o2)) => match sp_list(b, o2, n as int, sp_buf_fn()) {
                None => None,
                Some((bufs, o3)) => Some(((id, bufs), o3)),
            },
        },
    }
}

/// The row parser as a function value.
pub open spec fn sp_row_fn() -> spec_fn(Seq<u8>, int) -> Option<((u32, Seq<BufV>), int)> {
    |b: Seq<u8>, off: int| sp_row(b, off)
}

/// The whole column payload for a row list.
pub open spec fn payload_of(rows: Seq<(u32, Seq<BufV>)>) -> Seq<u8> {
    spec_u32_to_le_bytes(rows.len() as u32) + enc_list(rows, enc_row_fn())
}

/// Parse a whole column payload; the rows must fill it exactly.
pub open spec fn sp_payload(b: Seq<u8>) -> Option<Seq<(u32, Seq<BufV>)>> {
    match sp_u32(b, 0) {
        None => None,
        Some((n, o)) => match sp_list(b, o, n as int, sp_row_fn()) {
            None => None,
            Some((rows, end)) => if end == b.len() {
                Some(rows)
            } else {
                None
            },
        },
    }
}

/// Every length in an attribute fits its field.
pub open spec fn wf_attr(a: AttrV) -> bool {
    encode_utf8(a.name).len() <= u32::MAX
}

/// Every length in a vertex buffer fits its field.
pub open spec fn wf_buf(v: BufV) -> bool {
    &&& v.data.len() <= u32::MAX
    &&& v.attributes.len() <= u32::MAX
    &&& forall|i: int| 0 <= i < v.attributes.len() ==> wf_attr(#[trigger] v.attributes[i])
}

/// Every length in a row list fits its field.
pub open spec fn wf_rows(rows: Seq<(u32, Seq<BufV>)>) -> bool {
    &&& rows.len() <= u32::MAX
    &&& forall|i: int|
        0 <= i < rows.len() ==> {
            &&& (#[trigger] rows[i]).1.len() <= u32::MAX
            &&& forall|k: int| 0 <= k < rows[i].1.len() ==> wf_buf(#[trigger] rows[i].1[k])
        }
}

/// Whether a row's entity reference resolves among `n` entities.
pub open spec fn row_ok(r: (u32, Seq<BufV>), n: int) -> bool {
    r.0 < n
}

/// The rows whose entity reference resolves among `n` entities, in order.
pub open spec fn kept(rows: Seq<(u32, Seq<BufV>)>, n: int) -> Seq<(u32, Seq<BufV>)>
    decreases rows.len(),
{
    if rows.len() == 0 {
        Seq::empty()
    } else {
        kept(rows.drop_last(), n) + if row_ok(rows.last(), n) {
            seq![rows.last()]
        } else {
            Seq::empty()
        }
    }
}

// ---------------------------------------------------------------------------
// Executable writers.
// ---------------------------------------------------------------------------

/// The stored byte for an attribute kind.
fn kind_tag_exec(k: AttributeKind) -> (r: u8)
    ensures
        r == kind_tag(k),
{
    match k {
        AttributeKind::F32 => 0,
        AttributeKind::F64 => 1,
        AttributeKind::U8 => 2,
        AttributeKind::U16 => 3,
        AttributeKind::U32 => 4,
        AttributeKind::I8 => 5,
        AttributeKind::I16 => 6,
        AttributeKind::I32 => 7,
        AttributeKind::NormalizedU8 => 8,
        AttributeKind::NormalizedU16 => 9,
        AttributeKind::NormalizedU32 => 10,
        AttributeKind::NormalizedI8 => 11,
        AttributeKind::NormalizedI16 => 12,
        AttributeKind::NormalizedI32 => 13,
    }
}

/// Append the encoding of one attribute.
fn put_attr(out: &mut Vec<u8>, a: &Attribute)
    requires
        wf_attr(a@),
    ensures
        final(out)@ == old(out)@ + enc_attr(a@),
{
    put_str(out, a.name.as_str());
    put_u32(out, a.element_count);
    put_u8(out, kind_tag_exec(a.kind));
    proof {
        assert(final(out)@ =~= old(out)@ + enc_attr(a@));
    }
}

/// Append the encoding of one vertex buffer.
fn put_buf(out: &mut Vec<u8>, v: &VertexBuffer)
    requires
        wf_buf(v@),
    ensures
        final(out)@ == old(out)@ + enc_buf(v@),
{
    put_bytes(out, v.data.as_slice());
    put_u32(out, v.attributes.len() as u32);
    let ghost mid = out@;
    let n = v.attributes.len();
    proof {
        assert(v@.attributes.len() == v.attributes@.len());
        assert(v@.attributes.take(0) =~= Seq::<AttrV>::empty());
    }
    #[verifier::loop_isolation(false)]
    for i in 0..n
        invariant
            out@ == mid + enc_list(v@.attributes.take(i as int), enc_attr_fn()),
    {
        proof {
            assert(v@.attributes[i as int] == v.attributes@[i as int]@);
        }
        put_attr(out, &v.attributes[i]);
        proof {
            lemma_enc_list_push(v@.attributes.take(i as int), v@.attributes[i as int], enc_attr_fn());
            assert(v@.attributes.take(i + 1) =~= v@.attributes.take(i as int).push(
                v@.attributes[i as int],
            ));
            assert(out@ =~= mid + enc_list(v@.attributes.take(i + 1), enc_attr_fn()));
        }
    }
    proof {
        assert(v@.attributes.take(n as int) =~= v@.attributes);
        assert(final(out)@ =~= old(out)@ + enc_buf(v@));
    }
}

/// Write the rows as the `mesh` column, replacing any previous payload of
/// that column.
#[verifier::rlimit(90)]
#[verifier::spinoff_prover]
pub fn write(hb: &mut Builder, rows: &[(u32, Vec<VertexBuffer>)])
    requires
        old(hb)@.wf(),
        old(hb)@.columns.len() < u32::MAX,
        wf_rows(rows_view(rows@)),
        payload_of(rows_view(rows@)).len() <= u32::MAX,
    ensures
        final(hb)@.uuid == old(hb)@.uuid,
        final(hb)@.entities == old(hb)@.entities,
        final(hb)@.external == old(hb)@.external,
        ({
            let cs = old(hb)@.columns;
            let data = payload_of(rows_view(rows@));
            match col_first_match(cs, "mesh"@) {
                Some(j) => final(hb)@.columns == cs.update(
                    j,
                    ColumnV { name: cs[j].name, data },
                ),
                None => final(hb)@.columns == cs.push(ColumnV { name: "mesh"@, data }),
            }
        }),
        final(hb)@.wf(),
{
    proof {
        vstd::bytes::lemma_auto_spec_u32_to_from_le_bytes();
        reveal_strlit("mesh");
        assert(is_ascii_chars("mesh"@));
        is_ascii_chars_encode_utf8("mesh"@);
        assert(rows_view(rows@).len() == rows@.len());
    }
    let idx = hb.column("mesh");
    let mut data: Vec<u8> = Vec::new();
    put_u32(&mut data, rows.len() as u32);
    let ghost data1 = data@;
    let ghost rv = rows_view(rows@);
    let n = rows.len();
    proof {
        assert(rv.take(0) =~= Seq::<(u32, Seq<BufV>)>::empty());
    }
    #[verifier::loop_isolation(false)]
    for i in 0..n
        invariant
            data@ == data1 + enc_list(rv.take(i as int), enc_row_fn()),
    {
        proof {
            assert(rv[i as int] == (rows@[i as int].0, rows@[i as int].1@.map_values(
                |b: VertexBuffer| b@,
            )));
        }
        let id = rows[i].0;
        let bufs = &rows[i].1;
        let ghost bv = rv[i as int].1;
        put_u32(&mut data, id);
        put_u32(&mut data, bufs.len() as u32);
        let ghost data2 = data@;
        let m = bufs.len();
        proof {
            assert(bv.len() == bufs@.len());
            assert(bv.take(0) =~= Seq::<BufV>::empty());
        }
        #[verifier::loop_isolation(false)]
        for k in 0..m
            invariant
                data@ == data2 + enc_list(bv.take(k as int), enc_buf_fn()),
        {
            proof {
                assert(bv[k as int] == bufs@[k as int]@);
            }
            put_buf(&mut data, &bufs[k]);
            proof {
                lemma_enc_list_push(bv.take(k as int), bv[k as int], enc_buf_fn());
                assert(bv.take(k + 1) =~= bv.take(k as int).push(bv[k as int]));
                assert(data@ =~= data2 + enc_list(bv.take(k + 1), enc_buf_fn()));
            }
        }
        proof {
            assert(bv.take(m as int) =~= bv);
            lemma_enc_list_push(rv.take(i as int), rv[i as int], enc_row_fn());
            assert(rv.take(i + 1) =~= rv.take(i as int).push(rv[i as int]));
            assert(data@ =~= data1 + enc_list(rv.take(i + 1), enc_row_fn()));
        }
    }
    proof {
        assert(rv.take(n as int) =~= rv);
        assert(data@ =~= payload_of(rv));
    }
    hb.set_column_data(idx, data);
    proof {
        let cs = old(hb)@.columns;
        if col_first_match(cs, "mesh"@) is None {
            assert(final(hb)@.columns =~= cs.push(
                ColumnV { name: "mesh"@, data: payload_of(rv) },
            ));
        }
    }
}

// ---------------------------------------------------------------------------
// Executable parsing.
// ---------------------------------------------------------------------------

/// Parse one attribute at `off`.
fn parse_attr(data: &[u8], off: usize) -> (r: Option<(Attribute, usize)>)
    requires
        off <= data@.len(),
    ensures
        match r {
            Some(p) => sp_attr(data@, off as int) == Some((p.0@, p.1 as int)) && p.1
                <= data@.len(),
            None => sp_attr(data@, off as int) is None,
        },
{
    let (name, o1) = match parse_str(data, off) {
        None => {
            return None;
        },
        Some(p) => p,
    };
    let (element_count, o2) = match parse_u32(data, o1) {
        None => {
            return None;
        },
        Some(p) => p,
    };
    let (t, o3) = match parse_u8(data, o2) {
        None => {
            return None;
        },
        Some(p) => p,
    };
    let kind = if t == 0 {
        AttributeKind::F32
    } else if t == 1 {
        AttributeKind::F64
    } else if t == 2 {
        AttributeKind::U8
    } else if t == 3 {
        AttributeKind::U16
    } else if t == 4 {
        AttributeKind::U32
    } else if t == 5 {
        AttributeKind::I8
    } else if t == 6 {
        AttributeKind::I16
    } else if t == 7 {
        AttributeKind::I32
    } else if t == 8 {
        AttributeKind::NormalizedU8
    } else if t == 9 {
        AttributeKind::NormalizedU16
    } else if t == 10 {
        AttributeKind::NormalizedU32
    } else if t == 11 {
        AttributeKind::NormalizedI8
    } else if t == 12 {
        AttributeKind::NormalizedI16
    } else if t == 13 {
        AttributeKind::NormalizedI32
    } else {
        return None;
    };
    Some((Attribute { name, element_count, kind }, o3))
}

/// Parse one vertex buffer at `off`.
fn parse_buf(data: &[u8], off: usize) -> (r: Option<(VertexBuffer, usize)>)
    requires
        off <= data@.len(),
    ensures
        match r {
            Some(p) => sp_buf(data@, off as int) == Some((p.0@, p.1 as int)) && p.1
                <= data@.len(),
            None => sp_buf(data@, off as int) is None,
        },
{
    let ghost b = data@;
    let (block, o1) = match parse_bytes(data, off) {
        None => {
            return None;
        },
        Some(p) => p,
    };
    let (n, o2) = match parse_u32(data, o1) {
        None => {
            return None;
        },
        Some(p) => p,
    };
    let ghost f = sp_attr_fn();
    let mut attrs: Vec<Attribute> = Vec::new();
    let mut cur = o2;
    let mut i: u32 = 0;
    proof {
        assert(attrs@.map_values(|a: Attribute| a@) =~= Seq::<AttrV>::empty());
    }
    #[verifier::loop_isolation(false)]
    while i < n
        invariant
            cur <= b.len(),
            attrs@.len() == i,
            i <= n,
            sp_list(b, o2 as int, n as int, f) == (match sp_list(b, cur as int, n - i, f) {
                None => None::<(Seq<AttrV>, int)>,
                Some(p) => Some((attrs@.map_values(|a: Attribute| a@) + p.0, p.1)),
            }),
        decreases n - i,
    {
        let ghost attrs0 = attrs@.map_values(|a: Attribute| a@);
        let ghost cur0 = cur;
        match parse_attr(data, cur) {
            None => {
                proof {
                    assert(sp_list(b, cur as int, n - i, f) is None);
                }
                return None;
            },
            Some((a, o3)) => {
                proof {
                    let tail = sp_list(b, o3 as int, n - i - 1, f);
                    assert(f(b, cur0 as int) == sp_attr(b, cur0 as int));
                    assert(sp_list(b, cur0 as int, n - i, f) == (match tail {
                        None => None::<(Seq<AttrV>, int)>,
                        Some(p) => Some((seq![a@] + p.0, p.1)),
                    }));
                    if tail is Some {
                        let (rest, end) = tail->Some_0;
                        assert(attrs0.push(a@) + rest =~= attrs0 + (seq![a@] + rest));
                    }
                }
                let ghost attrs_old = attrs@;
                attrs.push(a);
                cur = o3;
                i = i + 1;
                proof {
                    assert(attrs@.map_values(|x: Attribute| x@) =~= attrs0.push(
                        attrs@[attrs@.len() - 1]@,
                    ));
                }
            },
        }
    }
    proof {
        assert(sp_list(b, cur as int, 0, f) == Some((Seq::<AttrV>::empty(), cur as int)));
        assert(attrs@.map_values(|a: Attribute| a@) + Seq::<AttrV>::empty() =~= attrs@.map_values(
            |a: Attribute| a@,
        ));
    }
    Some((VertexBuffer { data: block, attributes: attrs }, cur))
}

/// Read the `mesh` column through a mapping: the decoded rows whose entity
/// reference resolves, in order.  Absent when the column is missing or its
/// payload is malformed.
#[verifier::rlimit(90)]
#[verifier::spinoff_prover]
pub fn read<E>(m: &ReaderMapping<'_, E>) -> (r: Option<Vec<(u32, Vec<VertexBuffer>)>>)
    ensures
        ({
            let rv = m.reader_spec()@;
            let n = m.entities_spec().len();
            match col_first_match(rv.columns, "mesh"@) {
                None => r is None,
                Some(j) => match sp_payload(rv.columns[j].data) {
                    None => r is None,
                    Some(rows) => r matches Some(v) && rows_view(v@) == kept(rows, n as int),
                },
            }
        }),
{
    let rd = m.reader();
    let n_entities = m.len();
    let d = match rd.column("mesh") {
        None => {
            return None;
        },
        Some(d) => d,
    };
    let ghost b = d@;
    let (nrows, o0) = match parse_u32(d.as_slice(), 0) {
        None => {
            return None;
        },
        Some(p) => p,
    };
    let ghost f = sp_row_fn();
    let ghost mut parsed: Seq<(u32, Seq<BufV>)> = Seq::empty();
    let mut out: Vec<(u32, Vec<VertexBuffer>)> = Vec::new();
    let mut cur = o0;
    let mut i: u32 = 0;
    proof {
        assert(rows_view(out@) =~= Seq::<(u32, Seq<BufV>)>::empty());
    }
    #[verifier::loop_isolation(false)]
    while i < nrows
        invariant
            cur <= b.len(),
            b == d@,
            parsed.len() == i,
            i <= nrows,
            f == sp_row_fn(),
            sp_list(b, o0 as int, nrows as int, f) == (match sp_list(b, cur as int, nrows - i, f) {
                None => None::<(Seq<(u32, Seq<BufV>)>, int)>,
                Some(p) => Some((parsed + p.0, p.1)),
            }),
            rows_view(out@) == kept(parsed, n_entities as int),
        decreases nrows - i,
    {
        let ghost parsed0 = parsed;
        let ghost cur0 = cur;
        let (id, o1) = match parse_u32(d.as_slice(), cur) {
            None => {
                proof {
                    assert(sp_list(b, cur as int, nrows - i, f) is None);
                }
                return None;
            },
            Some(p) => p,
        };
        let (nbufs, o2) = match parse_u32(d.as_slice(), o1) {
            None => {
                proof {
                    assert(sp_list(b, cur as int, nrows - i, f) is None);
                }
                return None;
            },
            Some(p) => p,
        };
        let ghost g = sp_buf_fn();
        let mut bufs: Vec<VertexBuffer> = Vec::new();
        let mut bcur = o2;
        let mut k: u32 = 0;
        proof {
            assert(bufs@.map_values(|x: VertexBuffer| x@) =~= Seq::<BufV>::empty());
        }
        #[verifier::loop_isolation(false)]
        while k < nbufs
            invariant
                bcur <= b.len(),
                bufs@.len() == k,
                k <= nbufs,
                sp_list(b, o2 as int, nbufs as int, g) == (match sp_list(
                    b,
                    bcur as int,
                    nbufs - k,
                    g,
                ) {
                    None => None::<(Seq<BufV>, int)>,
                    Some(p) => Some((bufs@.map_values(|x: VertexBuffer| x@) + p.0, p.1)),
                }),
            decreases nbufs - k,
        {
            let ghost bufs0 = bufs@.map_values(|x: VertexBuffer| x@);
            let ghost bcur0 = bcur;
            match parse_buf(d.as_slice(), bcur) {
                None => {
                    proof {
                        assert(sp_list(b, bcur as int, nbufs - k, g) is None);
                        assert(sp_list(b, o2 as int, nbufs as int, g) is None);
                        assert(sp_row(b, cur0 as int) is None);
                        assert(sp_list(b, cur0 as int, nrows - i, f) is None);
                    }
                    return None;
                },
                Some((vb, o3)) => {
                    proof {
                        let tail = sp_list(b, o3 as int, nbufs - k - 1, g);
                        assert(g(b, bcur0 as int) == sp_buf(b, bcur0 as int));
                        assert(sp_list(b, bcur0 as int, nbufs - k, g) == (match tail {
                            None => None::<(Seq<BufV>, int)>,
                            Some(p) => Some((seq![vb@] + p.0, p.1)),
                        }));
                        if tail is Some {
                            let (rest, end) = tail->Some_0;
                            assert(bufs0.push(vb@) + rest =~= bufs0 + (seq![vb@] + rest));
                        }
                    }
                    bufs.push(vb);
                    bcur = o3;
                    k = k + 1;
                    proof {
                        assert(bufs@.map_values(|x: VertexBuffer| x@) =~= bufs0.push(
                            bufs@[bufs@.len() - 1]@,
                        ));
                    }
                },
            }
        }
        proof {
            assert(sp_list(b, bcur as int, 0, g) == Some((Seq::<BufV>::empty(), bcur as int)));
            assert(bufs@.map_values(|x: VertexBuffer| x@) + Seq::<BufV>::empty()
                =~= bufs@.map_values(|x: VertexBuffer| x@));
        }
        let ghost rowv = (id, bufs@.map_values(|x: VertexBuffer| x@));
        proof {
            let tail = sp_list(b, bcur as int, nrows - i - 1, f);
            assert(f(b, cur0 as int) == sp_row(b, cur0 as int));
            assert(sp_row(b, cur0 as int) == Some((rowv, bcur as int)));
            assert(sp_list(b, cur0 as int, nrows - i, f) == (match tail {
                None => None::<(Seq<(u32, Seq<BufV>)>, int)>,
                Some(p) => Some((seq![rowv] + p.0, p.1)),
            }));
            if tail is Some {
                let (rest, end) = tail->Some_0;
                assert(parsed0.push(rowv) + rest =~= parsed0 + (seq![rowv] + rest));
            }
        }
        let ghost out0 = rows_view(out@);
        if (id as usize) < n_entities {
            out.push((id, bufs));
            proof {
                assert(rows_view(out@) =~= out0.push(rowv));
            }
        }
        cur = bcur;
        i = i + 1;
        proof {
            parsed = parsed0.push(rowv);
            assert(parsed.drop_last() =~= parsed0);
            assert(parsed.last() == rowv);
            assert(rows_view(out@) =~= kept(parsed, n_entities as int));
        }
    }
    proof {
        assert(sp_list(b, cur as int, 0, f) == Some(
            (Seq::<(u32, Seq<BufV>)>::empty(), cur as int),
        ));
        assert(parsed + Seq::<(u32, Seq<BufV>)>::empty() =~= parsed);
    }
    if cur != d.len() {
        return None;
    }
    proof {
        assert(sp_payload(b) == Some(parsed));
    }
    Some(out)
}


/// Parsing the encoding of an attribute embedded in a larger sequence
/// yields it back.
proof fn lemma_parse_attr_of_enc(b: Seq<u8>, off: int, a: AttrV)
    requires
        0 <= off,
        wf_attr(a),
        off + enc_attr(a).len() <= b.len(),
        b.subrange(off, off + enc_attr(a).len()) == enc_attr(a),
    ensures
        sp_attr(b, off) == Some((a, off + enc_attr(a).len())),
{
    vstd::bytes::lemma_auto_spec_u32_to_from_le_bytes();
    let enc = enc_attr(a);
    let total = enc.len() as int;
    let es = enc_str(a.name);
    assert(b.subrange(off, off + es.len()) =~= enc.subrange(0, es.len() as int));
    assert(enc.subrange(0, es.len() as int) =~= es);
    lemma_parse_str_of_enc(b, off, a.name);
    let o1 = off + es.len() as int;
    assert(b.subrange(o1, o1 + 4) =~= enc.subrange(es.len() as int, es.len() as int + 4));
    assert(enc.subrange(es.len() as int, es.len() as int + 4) =~= spec_u32_to_le_bytes(a.element_count));
    lemma_parse_u32_of_enc(b, o1, a.element_count);
    assert(b[o1 + 4] == kind_tag(a.kind)) by {
        assert(b.subrange(off, off + total)[total - 1] == kind_tag(a.kind));
    }
}

/// Parsing the encoding of a vertex buffer embedded in a larger sequence
/// yields it back.
proof fn lemma_parse_buf_of_enc(b: Seq<u8>, off: int, v: BufV)
    requires
        0 <= off,
        wf_buf(v),
        off + enc_buf(v).len() <= b.len(),
        b.subrange(off, off + enc_buf(v).len()) == enc_buf(v),
    ensures
        sp_buf(b, off) == Some((v, off + enc_buf(v).len())),
{
    vstd::bytes::lemma_auto_spec_u32_to_from_le_bytes();
    let enc = enc_buf(v);
    let total = enc.len() as int;
    let eb = enc_bytes(v.data);
    let li = enc_list(v.attributes, enc_attr_fn());
    assert(b.subrange(off, off + eb.len()) =~= enc.subrange(0, eb.len() as int));
    assert(enc.subrange(0, eb.len() as int) =~= eb);
    lemma_parse_bytes_of_enc(b, off, v.data);
    let o1 = off + eb.len() as int;
    assert(b.subrange(o1, o1 + 4) =~= enc.subrange(eb.len() as int, eb.len() as int + 4));
    assert(enc.subrange(eb.len() as int, eb.len() as int + 4) =~= spec_u32_to_le_bytes(
        v.attributes.len() as u32,
    ));
    lemma_parse_u32_of_enc(b, o1, v.attributes.len() as u32);
    let o2 = o1 + 4;
    assert(b.subrange(o2, o2 + li.len()) =~= enc.subrange(eb.len() as int + 4, total));
    assert(enc.subrange(eb.len() as int + 4, total) =~= li);
    assert(forall|o: int, i: int|
        #![trigger sp_attr_fn()(b, o), enc_attr_fn()(v.attributes[i])]
        0 <= i < v.attributes.len() && 0 <= o && o + enc_attr_fn()(v.attributes[i]).len()
            <= b.len() && b.subrange(o, o + (enc_attr_fn()(v.attributes[i]).len() as int))
            == enc_attr_fn()(v.attributes[i]) ==> sp_attr_fn()(b, o) == Some(
            (v.attributes[i], o + enc_attr_fn()(v.attributes[i]).len()),
        )) by {
        assert forall|o: int, i: int|
            #![trigger sp_attr_fn()(b, o), enc_attr_fn()(v.attributes[i])]
            0 <= i < v.attributes.len() && 0 <= o && o + enc_attr_fn()(v.attributes[i]).len()
                <= b.len() && b.subrange(o, o + (enc_attr_fn()(v.attributes[i]).len() as int))
                == enc_attr_fn()(v.attributes[i]) implies sp_attr_fn()(b, o) == Some(
            (v.attributes[i], o + enc_attr_fn()(v.attributes[i]).len()),
        ) by {
            lemma_parse_attr_of_enc(b, o, v.attributes[i]);
        }
    }
    lemma_parse_list_of_enc(b, o2, v.attributes, enc_attr_fn(), sp_attr_fn());
}

/// Parsing the encoding of a row embedded in a larger sequence yields it
/// back.
proof fn lemma_parse_row_of_enc(b: Seq<u8>, off: int, r: (u32, Seq<BufV>))
    requires
        0 <= off,
        r.1.len() <= u32::MAX,
        forall|k: int| 0 <= k < r.1.len() ==> wf_buf(#[trigger] r.1[k]),
        off + enc_row(r).len() <= b.len(),
        b.subrange(off, off + enc_row(r).len()) == enc_row(r),
    ensures
        sp_row(b, off) == Some((r, off + enc_row(r).len())),
{
    vstd::bytes::lemma_auto_spec_u32_to_from_le_bytes();
    let enc = enc_row(r);
    let total = enc.len() as int;
    let li = enc_list(r.1, enc_buf_fn());
    assert(b.subrange(off, off + 4) =~= enc.subrange(0, 4));
    assert(enc.subrange(0, 4) =~= spec_u32_to_le_bytes(r.0));
    lemma_parse_u32_of_enc(b, off, r.0);
    assert(b.subrange(off + 4, off + 8) =~= enc.subrange(4, 8));
    assert(enc.subrange(4, 8) =~= spec_u32_to_le_bytes(r.1.len() as u32));
    lemma_parse_u32_of_enc(b, off + 4, r.1.len() as u32);
    assert(b.subrange(off + 8, off + 8 + li.len()) =~= enc.subrange(8, total));
    assert(enc.subrange(8, total) =~= li);
    assert(forall|o: int, i: int|
        #![trigger sp_buf_fn()(b, o), enc_buf_fn()(r.1[i])]
        0 <= i < r.1.len() && 0 <= o && o + enc_buf_fn()(r.1[i]).len() <= b.len() && b.subrange(
            o,
            o + (enc_buf_fn()(r.1[i]).len() as int),
        ) == enc_buf_fn()(r.1[i]) ==> sp_buf_fn()(b, o) == Some(
            (r.1[i], o + enc_buf_fn()(r.1[i]).len()),
        )) by {
        assert forall|o: int, i: int|
            #![trigger sp_buf_fn()(b, o), enc_buf_fn()(r.1[i])]
            0 <= i < r.1.len() && 0 <= o && o + enc_buf_fn()(r.1[i]).len() <= b.len()
                && b.subrange(o, o + (enc_buf_fn()(r.1[i]).len() as int)) == enc_buf_fn()(
                r.1[i],
            ) implies sp_buf_fn()(b, o) == Some((r.1[i], o + enc_buf_fn()(r.1[i]).len())) by {
            lemma_parse_buf_of_enc(b, o, r.1[i]);
        }
    }
    lemma_parse_list_of_enc(b, off + 8, r.1, enc_buf_fn(), sp_buf_fn());
}

/// Parsing a payload written for a row list yields the rows back: reading
/// this column inverts writing it.
pub proof fn lemma_payload_round_trip(rows: Seq<(u32, Seq<BufV>)>)
    requires
        wf_rows(rows),
    ensures
        sp_payload(payload_of(rows)) == Some(rows),
{
    vstd::bytes::lemma_auto_spec_u32_to_from_le_bytes();
    let b = payload_of(rows);
    let li = enc_list(rows, enc_row_fn());
    assert(b.subrange(0, 4) =~= spec_u32_to_le_bytes(rows.len() as u32));
    lemma_parse_u32_of_enc(b, 0, rows.len() as u32);
    assert(b.subrange(4, 4 + li.len() as int) =~= li);
    assert(forall|o: int, i: int|
        #![trigger sp_row_fn()(b, o), enc_row_fn()(rows[i])]
        0 <= i < rows.len() && 0 <= o && o + enc_row_fn()(rows[i]).len() <= b.len() && b.subrange(
            o,
            o + (enc_row_fn()(rows[i]).len() as int),
        ) == enc_row_fn()(rows[i]) ==> sp_row_fn()(b, o) == Some(
            (rows[i], o + enc_row_fn()(rows[i]).len()),
        )) by {
        assert forall|o: int, i: int|
            #![trigger sp_row_fn()(b, o), enc_row_fn()(rows[i])]
            0 <= i < rows.len() && 0 <= o && o + enc_row_fn()(rows[i]).len() <= b.len()
                && b.subrange(o, o + (enc_row_fn()(rows[i]).len() as int)) == enc_row_fn()(
                rows[i],
            ) implies sp_row_fn()(b, o) == Some((rows[i], o + enc_row_fn()(rows[i]).len())) by {
            lemma_parse_row_of_enc(b, o, rows[i]);
        }
    }
    lemma_parse_list_of_enc(b, 4, rows, enc_row_fn(), sp_row_fn());
}

} // verus!
