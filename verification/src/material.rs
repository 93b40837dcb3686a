//! The `material` column: one row per entity that binds a material
//! component to either a texture entity or a constant color.
//!
//! Payload layout: a 32-bit row count, then per row the entity index, one
//! byte for the component, one byte for the kind of value, and the value:
//! a 32-bit texture entity index, or four 32-bit words holding the bit
//! patterns of the four color channels.

use vstd::prelude::*;
use vstd::bytes::spec_u32_to_le_bytes;
use vstd::utf8::{is_ascii_chars, is_ascii_chars_encode_utf8};
use crate::builder::Builder;
use crate::codec::{
    enc_list, lemma_enc_list_push, parse_u8, parse_u32, put_u8, put_u32, sp_list, sp_u8, sp_u32,
};
use crate::message::{col_first_match, ColumnV};
use crate::reader::ReaderMapping;

verus! {

/// Which lighting component a material row binds.
#[derive(Clone, Copy, Debug, PartialEq, Eq, Structural)]
pub enum Component {
    Ambient,
    Diffuse,
    Specular,
}

/// A material value: a texture entity index, or a constant color given as
/// the bit patterns of its four channels.
#[derive(Clone, Copy, Debug, PartialEq, Eq)]
pub enum Value {
    Texture(u32),
    Color(u32, u32, u32, u32),
}

/// The stored byte for a component.
pub open spec fn comp_tag(c: Component) -> u8 {
    match c {
        Component::Ambient => 0u8,
        Component::Diffuse => 1u8,
        Component::Specular => 2u8,
    }
}

/// Encode one row.
pub open spec fn enc_row(r: (u32, Component, Value)) -> Seq<u8> {
    spec_u32_to_le_bytes(r.0) + seq![comp_tag(r.1)] + match r.2 {
        Value::Texture(t) => seq![0u8] + spec_u32_to_le_bytes(t),
        Value::Color(c0, c1, c2, c3) => seq![1u8] + spec_u32_to_le_bytes(c0)
            + spec_u32_to_le_bytes(c1) + spec_u32_to_le_bytes(c2) + spec_u32_to_le_bytes(c3),
    }
}

/// The row encoder as a function value.
pub open spec fn enc_row_fn() -> spec_fn((u32, Component, Value)) -> Seq<u8> {
    |r: (u32, Component, Value)| enc_row(r)
}

/// Decode a stored component byte.
pub open spec fn sp_comp(t: u8) -> Option<Component> {
    if t == 0 {
        Some(Component::Ambient)
    } else if t == 1 {
        Some(Component::Diffuse)
    } else if t == 2 {
        Some(Component::Specular)
    } else {
        None
    }
}

/// Parse one row.
pub open spec fn sp_row(b: Seq<u8>, off: int) -> Option<((u32, Component, Value), int)> {
    match sp_u32(b, off) {
        None => None,
        Some((id, o1)) => match sp_u8(b, o1) {
            None => None,
            Some((ct, o2)) => match sp_comp(ct) {
                None => None,
                Some(comp) => match sp_u8(b, o2) {
                    None => None,
                    Some((vt, o3)) => if vt == 0 {
                        match sp_u32(b, o3) {
                            None => None,
                            Some((t, o4)) => Some(((id, comp, Value::Texture(t)), o4)),
                        }
                    } else if vt == 1 {
                        match (sp_u32(b, o3), sp_u32(b, o3 + 4), sp_u32(b, o3 + 8), sp_u32(
                            b,
                            o3 + 12,
                        )) {
                            (Some((c0, _)), Some((c1, _)), Some((c2, _)), Some((c3, o7))) => Some(
                                ((id, comp, Value::Color(c0, c1, c2, c3)), o7),
                            ),
                            _ => None,
                        }
                    } else {
                        None
                    },
                },
            },
        },
    }
}

/// The row parser as a function value.
pub open spec fn sp_row_fn() -> spec_fn(Seq<u8>, int) -> Option<((u32, Component, Value), int)> {
    |b: Seq<u8>, off: int| sp_row(b, off)
}

/// The whole column payload for a row list.
pub open spec fn payload_of(rows: Seq<(u32, Component, Value)>) -> Seq<u8> {
    spec_u32_to_le_bytes(rows.len() as u32) + enc_list(rows, enc_row_fn())
}

/// Parse a whole column payload; the rows must fill it exactly.
pub open spec fn sp_payload(b: Seq<u8>) -> Option<Seq<(u32, Component, Value)>> {
    match sp_u32(b, 0) {
        None => None,
        Some((n, o)) => match sp_list(b, o, n as int, sp_row_fn()) {
            None => None,
            Some((rows, end)) => if end == b.len() {
                Some(rows)
            } else {
                None
            },
        },
    }
}

/// Whether a row's entity reference resolves among `n` entities.
pub open spec fn row_ok(r: (u32, Component, Value), n: int) -> bool {
    r.0 < n
}

/// The rows whose entity reference resolves among `n` entities, in order.
pub open spec fn kept(rows: Seq<(u32, Component, Value)>, n: int) -> Seq<(u32, Component, Value)>
    decreases rows.len(),
{
    if rows.len() == 0 {
        Seq::empty()
    } else {
        kept(rows.drop_last(), n) + if row_ok(rows.last(), n) {
            seq![rows.last()]
        } else {
            Seq::empty()
        }
    }
}

/// Write the rows as the `material` column, replacing any previous payload
/// of that column.
#[verifier::rlimit(60)]
#[verifier::spinoff_prover]
pub fn write(hb: &mut Builder, rows: &[(u32, Component, Value)])
    requires
        old(hb)@.wf(),
        old(hb)@.columns.len() < u32::MAX,
        rows@.len() < 0x0700_0000,
    ensures
        final(hb)@.uuid == old(hb)@.uuid,
        final(hb)@.entities == old(hb)@.entities,
        final(hb)@.external == old(hb)@.external,
        ({
            let cs = old(hb)@.columns;
            let data = payload_of(rows@);
            match col_first_match(cs, "material"@) {
                Some(j) => final(hb)@.columns == cs.update(
                    j,
                    ColumnV { name: cs[j].name, data },
                ),
                None => final(hb)@.columns == cs.push(ColumnV { name: "material"@, data }),
            }
        }),
        final(hb)@.wf(),
{
    proof {
        vstd::bytes::lemma_auto_spec_u32_to_from_le_bytes();
        reveal_strlit("material");
        assert(is_ascii_chars("material"@));
        is_ascii_chars_encode_utf8("material"@);
        lemma_rows_len(rows@);
    }
    let idx = hb.column("material");
    let mut data: Vec<u8> = Vec::new();
    put_u32(&mut data, rows.len() as u32);
    let ghost data1 = data@;
    let n = rows.len();
    proof {
        assert(rows@.take(0) =~= Seq::<(u32, Component, Value)>::empty());
    }
    #[verifier::loop_isolation(false)]
    for i in 0..n
        invariant
            data@ == data1 + enc_list(rows@.take(i as int), enc_row_fn()),
    {
        let (id, comp, value) = rows[i];
        put_u32(&mut data, id);
        match comp {
            Component::Ambient => put_u8(&mut data, 0),
            Component::Diffuse => put_u8(&mut data, 1),
            Component::Specular => put_u8(&mut data, 2),
        }
        match value {
            Value::Texture(t) => {
                put_u8(&mut data, 0);
                put_u32(&mut data, t);
            },
            Value::Color(c0, c1, c2, c3) => {
                put_u8(&mut data, 1);
                put_u32(&mut data, c0);
                put_u32(&mut data, c1);
                put_u32(&mut data, c2);
                put_u32(&mut data, c3);
            },
        }
        proof {
            lemma_enc_list_push(rows@.take(i as int), rows@[i as int], enc_row_fn());
            assert(rows@.take(i + 1) =~= rows@.take(i as int).push(rows@[i as int]));
            assert(data@ =~= data1 + enc_list(rows@.take(i + 1), enc_row_fn()));
        }
    }
    proof {
        assert(rows@.take(n as int) =~= rows@);
        assert(data@ =~= payload_of(rows@));
        lemma_rows_len(rows@);
    }
    hb.set_column_data(idx, data);
    proof {
        let cs = old(hb)@.columns;
        if col_first_match(cs, "material"@) is None {
            assert(final(hb)@.columns =~= cs.push(
                ColumnV { name: "material"@, data: payload_of(rows@) },
            ));
        }
    }
}

/// A row list encodes to at most 22 bytes per row.
pub proof fn lemma_rows_len(rows: Seq<(u32, Component, Value)>)
    ensures
        enc_list(rows, enc_row_fn()).len() <= 22 * rows.len(),
    decreases rows.len(),
{
    vstd::bytes::lemma_auto_spec_u32_to_from_le_bytes();
    if rows.len() > 0 {
        lemma_rows_len(rows.drop_first());
    }
}

/// Read the `material` column through a mapping: the decoded rows whose
/// entity reference resolves, in order.  Absent when the column is missing
/// or its payload is malformed.
pub fn read<E>(m: &ReaderMapping<'_, E>) -> (r: Option<Vec<(u32, Component, Value)>>)
    ensures
        ({
            let rv = m.reader_spec()@;
            let n = m.entities_spec().len();
            match col_first_match(rv.columns, "material"@) {
                None => r is None,
                Some(j) => match sp_payload(rv.columns[j].data) {
                    None => r is None,
                    Some(rows) => r matches Some(v) && v@ == kept(rows, n as int),
                },
            }
        }),
{
    let rd = m.reader();
    let d = match rd.column("material") {
        None => {
            return None;
        },
        Some(d) => d,
    };
    let ghost b = d@;
    let (nrows, o0) = match parse_u32(d.as_slice(), 0) {
        None => {
            return None;
        },
        Some(p) => p,
    };
    let ghost f = sp_row_fn();
    let mut rows: Vec<(u32, Component, Value)> = Vec::new();
    let mut cur = o0;
    let mut i: u32 = 0;
    #[verifier::loop_isolation(false)]
    while i < nrows
        invariant
            cur <= b.len(),
            b == d@,
            rows@.len() == i,
            i <= nrows,
            f == sp_row_fn(),
            sp_list(b, o0 as int, nrows as int, f) == (match sp_list(b, cur as int, nrows - i, f) {
                None => None::<(Seq<(u32, Component, Value)>, int)>,
                Some(p) => Some((rows@ + p.0, p.1)),
            }),
        decreases nrows - i,
    {
        let ghost rows0 = rows@;
        let ghost cur0 = cur;
        let row: (u32, Component, Value);
        let next: usize;
        match parse_row(d.as_slice(), cur) {
            None => {
                proof {
                    assert(sp_list(b, cur as int, nrows - i, f) is None);
                }
                return None;
            },
            Some(p) => {
                row = p.0;
                next = p.1;
            },
        }
        proof {
            let tail = sp_list(b, next as int, nrows - i - 1, f);
            assert(f(b, cur0 as int) == sp_row(b, cur0 as int));
            assert(sp_list(b, cur0 as int, nrows - i, f) == (match tail {
                None => None::<(Seq<(u32, Component, Value)>, int)>,
                Some(p) => Some((seq![row] + p.0, p.1)),
            }));
            if tail is Some {
                let (rest, end) = tail->Some_0;
                assert(rows0.push(row) + rest =~= rows0 + (seq![row] + rest));
            }
        }
        rows.push(row);
        cur = next;
        i = i + 1;
    }
    proof {
        assert(sp_list(b, cur as int, 0, f) == Some(
            (Seq::<(u32, Component, Value)>::empty(), cur as int),
        ));
        assert(rows@ + Seq::<(u32, Component, Value)>::empty() =~= rows@);
    }
    if cur != d.len() {
        return None;
    }
    proof {
        assert(sp_payload(b) == Some(rows@));
    }
    let n = m.len();
    let mut out: Vec<(u32, Component, Value)> = Vec::new();
    let total = rows.len();
    proof {
        assert(kept(rows@.take(0), n as int) =~= Seq::<(u32, Component, Value)>::empty());
    }
    #[verifier::loop_isolation(false)]
    for k in 0..total
        invariant
            out@ == kept(rows@.take(k as int), n as int),
    {
        let (id, comp, value) = rows[k];
        if (id as usize) < n {
            out.push((id, comp, value));
        }
        proof {
            assert(rows@.take(k + 1).drop_last() =~= rows@.take(k as int));
            assert(rows@.take(k + 1).last() == rows@[k as int]);
            assert(out@ =~= kept(rows@.take(k + 1), n as int));
        }
    }
    proof {
        assert(rows@.take(total as int) =~= rows@);
    }
    Some(out)
}

/// Parse one material row at `off`.
fn parse_row(data: &[u8], off: usize) -> (r: Option<((u32, Component, Value), usize)>)
    requires
        off <= data@.len(),
    ensures
        match r {
            Some(p) => sp_row(data@, off as int) == Some((p.0, p.1 as int)) && p.1 <= data@.len(),
            None => sp_row(data@, off as int) is None,
        },
{
    let (id, o1) = match parse_u32(data, off) {
        None => {
            return None;
        },
        Some(p) => p,
    };
    let (ct, o2) = match parse_u8(data, o1) {
        None => {
            return None;
        },
        Some(p) => p,
    };
    let comp = if ct == 0 {
        Component::Ambient
    } else if ct == 1 {
        Component::Diffuse
    } else if ct == 2 {
        Component::Specular
    } else {
        return None;
    };
    let (vt, o3) = match parse_u8(data, o2) {
        None => {
            return None;
        },
        Some(p) => p,
    };
    if vt == 0 {
        match parse_u32(data, o3) {
            None => None,
            Some((t, o4)) => Some(((id, comp, Value::Texture(t)), o4)),
        }
    } else if vt == 1 {
        let (c0, o4) = match parse_u32(data, o3) {
            None => {
                return None;
            },
            Some(p) => p,
        };
        let (c1, o5) = match parse_u32(data, o4) {
            None => {
                return None;
            },
            Some(p) => p,
        };
        let (c2, o6) = match parse_u32(data, o5) {
            None => {
                return None;
            },
            Some(p) => p,
        };
        let (c3, o7) = match parse_u32(data, o6) {
            None => {
                return None;
            },
            Some(p) => p,
        };
        Some(((id, comp, Value::Color(c0, c1, c2, c3)), o7))
    } else {
        None
    }
}


/// Parsing the encoding of a row embedded in a larger sequence yields it
/// back.
proof fn lemma_parse_row_of_enc(b: Seq<u8>, off: int, r: (u32, Component, Value))
    requires
        0 <= off,
        off + enc_row(r).len() <= b.len(),
        b.subrange(off, off + enc_row(r).len()) == enc_row(r),
    ensures
        sp_row(b, off) == Some((r, off + enc_row(r).len())),
{
    vstd::bytes::lemma_auto_spec_u32_to_from_le_bytes();
    let enc = enc_row(r);
    let total = enc.len() as int;
    assert(b.subrange(off, off + 4) =~= enc.subrange(0, 4));
    assert(enc.subrange(0, 4) =~= spec_u32_to_le_bytes(r.0));
    crate::codec::lemma_parse_u32_of_enc(b, off, r.0);
    assert(b[off + 4] == comp_tag(r.1)) by {
        assert(b.subrange(off, off + total)[4] == comp_tag(r.1));
    }
    match r.2 {
        Value::Texture(t) => {
            assert(enc == spec_u32_to_le_bytes(r.0) + seq![comp_tag(r.1)] + (seq![0u8]
                + spec_u32_to_le_bytes(t)));
            assert(b[off + 5] == 0u8) by {
                assert(b.subrange(off, off + total)[5] == 0u8);
            }
            assert(b.subrange(off + 6, off + 10) =~= enc.subrange(6, 10));
            assert(enc.subrange(6, 10) =~= spec_u32_to_le_bytes(t));
            crate::codec::lemma_parse_u32_of_enc(b, off + 6, t);
        },
        Value::Color(c0, c1, c2, c3) => {
            assert(enc == spec_u32_to_le_bytes(r.0) + seq![comp_tag(r.1)] + (seq![1u8]
                + spec_u32_to_le_bytes(c0) + spec_u32_to_le_bytes(c1) + spec_u32_to_le_bytes(c2)
                + spec_u32_to_le_bytes(c3)));
            assert(b[off + 5] == 1u8) by {
                assert(b.subrange(off, off + total)[5] == 1u8);
            }
            assert(b.subrange(off + 6, off + 10) =~= enc.subrange(6, 10));
            assert(enc.subrange(6, 10) =~= spec_u32_to_le_bytes(c0));
            crate::codec::lemma_parse_u32_of_enc(b, off + 6, c0);
            assert(b.subrange(off + 10, off + 14) =~= enc.subrange(10, 14));
            assert(enc.subrange(10, 14) =~= spec_u32_to_le_bytes(c1));
            crate::codec::lemma_parse_u32_of_enc(b, off + 10, c1);
            assert(b.subrange(off + 14, off + 18) =~= enc.subrange(14, 18));
            assert(enc.subrange(14, 18) =~= spec_u32_to_le_bytes(c2));
            crate::codec::lemma_parse_u32_of_enc(b, off + 14, c2);
            assert(b.subrange(off + 18, off + 22) =~= enc.subrange(18, 22));
            assert(enc.subrange(18, 22) =~= spec_u32_to_le_bytes(c3));
            crate::codec::lemma_parse_u32_of_enc(b, off + 18, c3);
        },
    }
}

/// Parsing a payload written for a row list yields the rows back: reading
/// this column inverts writing it.
pub proof fn lemma_payload_round_trip(rows: Seq<(u32, Component, Value)>)
    requires
        rows.len() <= u32::MAX,
    ensures
        sp_payload(payload_of(rows)) == Some(rows),
{
    vstd::bytes::lemma_auto_spec_u32_to_from_le_bytes();
    let b = payload_of(rows);
    let li = enc_list(rows, enc_row_fn());
    assert(b.subrange(0, 4) =~= spec_u32_to_le_bytes(rows.len() as u32));
    crate::codec::lemma_parse_u32_of_enc(b, 0, rows.len() as u32);
    assert(b.subrange(4, 4 + li.len() as int) =~= li);
    assert(forall|o: int, i: int|
        #![trigger sp_row_fn()(b, o), enc_row_fn()(rows[i])]
        0 <= i < rows.len() && 0 <= o && o + enc_row_fn()(rows[i]).len() <= b.len() && b.subrange(
            o,
            o + (enc_row_fn()(rows[i]).len() as int),
        ) == enc_row_fn()(rows[i]) ==> sp_row_fn()(b, o) == Some(
            (rows[i], o + enc_row_fn()(rows[i]).len()),
        )) by {
        assert forall|o: int, i: int|
            #![trigger sp_row_fn()(b, o), enc_row_fn()(rows[i])]
            0 <= i < rows.len() && 0 <= o && o + enc_row_fn()(rows[i]).len() <= b.len()
                && b.subrange(o, o + (enc_row_fn()(rows[i]).len() as int)) == enc_row_fn()(
                rows[i],
            ) implies sp_row_fn()(b, o) == Some((rows[i], o + enc_row_fn()(rows[i]).len())) by {
            lemma_parse_row_of_enc(b, o, rows[i]);
        }
    }
    crate::codec::lemma_parse_list_of_enc(b, 4, rows, enc_row_fn(), sp_row_fn());
}

} // verus!
