//! The `geometry` column: one row per entity that names a range of a mesh.
//!
//! Payload layout: a 32-bit row count, then per row four little-endian
//! 32-bit fields: the entity index the row is about, the mesh entity index,
//! the start, and the length.

use vstd::prelude::*;
use vstd::bytes::spec_u32_to_le_bytes;
use vstd::utf8::{is_ascii_chars, is_ascii_chars_encode_utf8};
use crate::builder::Builder;
use crate::codec::{enc_list, lemma_enc_list_push, parse_u32, put_u32, sp_list, sp_u32};
use crate::message::{col_first_match, ColumnV};
use crate::reader::ReaderMapping;

verus! {

/// A geometry row: a range of the vertices of a mesh.
#[derive(Clone, Copy, Debug, PartialEq, Eq)]
pub struct Geometry<E> {
    pub mesh: E,
    pub start: u32,
    pub length: u32,
}

/// Encode one row.
pub open spec fn enc_row(r: (u32, Geometry<u32>)) -> Seq<u8> {
    spec_u32_to_le_bytes(r.0) + spec_u32_to_le_bytes(r.1.mesh) + spec_u32_to_le_bytes(r.1.start)
        + spec_u32_to_le_bytes(r.1.length)
}

/// The row encoder as a function value.
pub open spec fn enc_row_fn() -> spec_fn((u32, Geometry<u32>)) -> Seq<u8> {
    |r: (u32, Geometry<u32>)| enc_row(r)
}

/// Parse one row.
pub open spec fn sp_row(b: Seq<u8>, off: int) -> Option<((u32, Geometry<u32>), int)> {
    match sp_u32(b, off) {
        None => None,
        Some((id, o1)) => match sp_u32(b, o1) {
            None => None,
            Some((mesh, o2)) => match sp_u32(b, o2) {
                None => None,
                Some((start, o3)) => match sp_u32(b, o3) {
                    None => None,
                    Some((length, o4)) => Some(((id, Geometry { mesh, start, length }), o4)),
                },
            },
        },
    }
}

/// The row parser as a function value.
pub open spec fn sp_row_fn() -> spec_fn(Seq<u8>, int) -> Option<((u32, Geometry<u32>), int)> {
    |b: Seq<u8>, off: int| sp_row(b, off)
}

/// The whole column payload for a row list.
pub open spec fn payload_of(rows: Seq<(u32, Geometry<u32>)>) -> Seq<u8> {
    spec_u32_to_le_bytes(rows.len() as u32) + enc_list(rows, enc_row_fn())
}

/// Parse a whole column payload; the rows must fill it exactly.
pub open spec fn sp_payload(b: Seq<u8>) -> Option<Seq<(u32, Geometry<u32>)>> {
    match sp_u32(b, 0) {
        None => None,
        Some((n, o)) => match sp_list(b, o, n as int, sp_row_fn()) {
            None => None,
            Some((rows, end)) => if end == b.len() {
                Some(rows)
            } else {
                None
            },
        },
    }
}

/// Whether a row only references entities below `n`.
pub open spec fn row_ok(r: (u32, Geometry<u32>), n: int) -> bool {
    r.0 < n && r.1.mesh < n
}

/// The rows whose references all resolve among `n` entities, in order.
pub open spec fn kept(rows: Seq<(u32, Geometry<u32>)>, n: int) -> Seq<(u32, Geometry<u32>)>
    decreases rows.len(),
{
    if rows.len() == 0 {
        Seq::empty()
    } else {
        kept(rows.drop_last(), n) + if row_ok(rows.last(), n) {
            seq![rows.last()]
        } else {
            Seq::empty()
        }
    }
}

/// A row list encodes to sixteen bytes per row.
pub proof fn lemma_rows_len(rows: Seq<(u32, Geometry<u32>)>)
    ensures
        enc_list(rows, enc_row_fn()).len() == 16 * rows.len(),
    decreases rows.len(),
{
    vstd::bytes::lemma_auto_spec_u32_to_from_le_bytes();
    if rows.len() > 0 {
        lemma_rows_len(rows.drop_first());
    }
}

/// Write the rows as the `geometry` column, replacing any previous payload
/// of that column.
pub fn write(hb: &mut Builder, rows: &[(u32, Geometry<u32>)])
    requires
        old(hb)@.wf(),
        old(hb)@.columns.len() < u32::MAX,
        rows@.len() < 0x0800_0000,
    ensures
        final(hb)@.uuid == old(hb)@.uuid,
        final(hb)@.entities == old(hb)@.entities,
        final(hb)@.external == old(hb)@.external,
        ({
            let cs = old(hb)@.columns;
            let data = payload_of(rows@);
            match col_first_match(cs, "geometry"@) {
                Some(j) => final(hb)@.columns == cs.update(
                    j,
                    ColumnV { name: cs[j].name, data },
                ),
                None => final(hb)@.columns == cs.push(ColumnV { name: "geometry"@, data }),
            }
        }),
        final(hb)@.wf(),
{
    proof {
        vstd::bytes::lemma_auto_spec_u32_to_from_le_bytes();
        reveal_strlit("geometry");
        assert(is_ascii_chars("geometry"@));
        is_ascii_chars_encode_utf8("geometry"@);
        lemma_rows_len(rows@);
    }
    let idx = hb.column("geometry");
    let mut data: Vec<u8> = Vec::new();
    put_u32(&mut data, rows.len() as u32);
    let ghost data1 = data@;
    let n = rows.len();
    proof {
        assert(rows@.take(0) =~= Seq::<(u32, Geometry<u32>)>::empty());
    }
    #[verifier::loop_isolation(false)]
    for i in 0..n
        invariant
            data@ == data1 + enc_list(rows@.take(i as int), enc_row_fn()),
    {
        let (id, g) = rows[i];
        put_u32(&mut data, id);
        put_u32(&mut data, g.mesh);
        put_u32(&mut data, g.start);
        put_u32(&mut data, g.length);
        proof {
            lemma_enc_list_push(rows@.take(i as int), rows@[i as int], enc_row_fn());
            assert(rows@.take(i + 1) =~= rows@.take(i as int).push(rows@[i as int]));
            assert(data@ =~= data1 + enc_list(rows@.take(i + 1), enc_row_fn()));
        }
    }
    proof {
        assert(rows@.take(n as int) =~= rows@);
        assert(data@ =~= payload_of(rows@));
        lemma_rows_len(rows@);
    }
    hb.set_column_data(idx, data);
    proof {
        let cs = old(hb)@.columns;
        if col_first_match(cs, "geometry"@) is None {
            let j = cs.len() as int;
            assert(final(hb)@.columns =~= cs.push(
                ColumnV { name: "geometry"@, data: payload_of(rows@) },
            ));
        }
    }
}

/// Read the `geometry` column through a mapping: the decoded rows whose
/// entity references all resolve, in order.  Absent when the column is
/// missing or its payload is malformed.
pub fn read<E>(m: &ReaderMapping<'_, E>) -> (r: Option<Vec<(u32, Geometry<u32>)>>)
    ensures
        ({
            let rv = m.reader_spec()@;
            let n = m.entities_spec().len();
            match col_first_match(rv.columns, "geometry"@) {
                None => r is None,
                Some(j) => match sp_payload(rv.columns[j].data) {
                    None => r is None,
                    Some(rows) => r matches Some(v) && v@ == kept(rows, n as int),
                },
            }
        }),
{
    let rd = m.reader();
    let d = match rd.column("geometry") {
        None => {
            return None;
        },
        Some(d) => d,
    };
    let ghost b = d@;
    let (nrows, o0) = match parse_u32(d.as_slice(), 0) {
        None => {
            return None;
        },
        Some(p) => p,
    };
    let ghost f = sp_row_fn();
    let mut rows: Vec<(u32, Geometry<u32>)> = Vec::new();
    let mut cur = o0;
    let mut i: u32 = 0;
    #[verifier::loop_isolation(false)]
    while i < nrows
        invariant
            cur <= b.len(),
            b == d@,
            rows@.len() == i,
            i <= nrows,
            f == sp_row_fn(),
            sp_list(b, o0 as int, nrows as int, f) == (match sp_list(b, cur as int, nrows - i, f) {
                None => None::<(Seq<(u32, Geometry<u32>)>, int)>,
                Some(p) => Some((rows@ + p.0, p.1)),
            }),
        decreases nrows - i,
    {
        let ghost rows0 = rows@;
        let ghost cur0 = cur;
        let (id, o1) = match parse_u32(d.as_slice(), cur) {
            None => {
                proof {
                    assert(sp_list(b, cur as int, nrows - i, f) is None);
                }
                return None;
            },
            Some(p) => p,
        };
        let (mesh, o2) = match parse_u32(d.as_slice(), o1) {
            None => {
                proof {
                    assert(sp_list(b, cur as int, nrows - i, f) is None);
                }
                return None;
            },
            Some(p) => p,
        };
        let (start, o3) = match parse_u32(d.as_slice(), o2) {
            None => {
                proof {
                    assert(sp_list(b, cur as int, nrows - i, f) is None);
                }
                return None;
            },
            Some(p) => p,
        };
        let (length, o4) = match parse_u32(d.as_slice(), o3) {
            None => {
                proof {
                    assert(sp_list(b, cur as int, nrows - i, f) is None);
                }
                return None;
            },
            Some(p) => p,
        };
        let row = (id, Geometry { mesh, start, length });
        proof {
            let tail = sp_list(b, o4 as int, nrows - i - 1, f);
            assert(f(b, cur0 as int) == sp_row(b, cur0 as int));
            assert(sp_row(b, cur0 as int) == Some((row, o4 as int)));
            assert(sp_list(b, cur0 as int, nrows - i, f) == (match tail {
                None => None::<(Seq<(u32, Geometry<u32>)>, int)>,
                Some(p) => Some((seq![row] + p.0, p.1)),
            }));
            if tail is Some {
                let (rest, end) = tail->Some_0;
                assert(rows0.push(row) + rest =~= rows0 + (seq![row] + rest));
            }
        }
        rows.push(row);
        cur = o4;
        i = i + 1;
    }
    proof {
        assert(sp_list(b, cur as int, 0, f) == Some(
            (Seq::<(u32, Geometry<u32>)>::empty(), cur as int),
        ));
        assert(rows@ + Seq::<(u32, Geometry<u32>)>::empty() =~= rows@);
    }
    if cur != d.len() {
        return None;
    }
    proof {
        assert(sp_payload(b) == Some(rows@));
    }
    let n = m.len();
    let mut out: Vec<(u32, Geometry<u32>)> = Vec::new();
    let total = rows.len();
    proof {
        assert(kept(rows@.take(0), n as int) =~= Seq::<(u32, Geometry<u32>)>::empty());
    }
    #[verifier::loop_isolation(false)]
    for k in 0..total
        invariant
            out@ == kept(rows@.take(k as int), n as int),
    {
        let (id, g) = rows[k];
        if (id as usize) < n && (g.mesh as usize) < n {
            out.push((id, g));
        }
        proof {
            assert(rows@.take(k + 1).drop_last() =~= rows@.take(k as int));
            assert(rows@.take(k + 1).last() == rows@[k as int]);
            assert(out@ =~= kept(rows@.take(k + 1), n as int));
        }
    }
    proof {
        assert(rows@.take(total as int) =~= rows@);
    }
    Some(out)
}


/// Parsing the encoding of a row embedded in a larger sequence yields it
/// back.
proof fn lemma_parse_row_of_enc(b: Seq<u8>, off: int, r: (u32, Geometry<u32>))
    requires
        0 <= off,
        off + enc_row(r).len() <= b.len(),
        b.subrange(off, off + enc_row(r).len()) == enc_row(r),
    ensures
        sp_row(b, off) == Some((r, off + enc_row(r).len())),
{
    vstd::bytes::lemma_auto_spec_u32_to_from_le_bytes();
    let enc = enc_row(r);
    assert(b.subrange(off, off + 4) =~= enc.subrange(0, 4));
    assert(enc.subrange(0, 4) =~= spec_u32_to_le_bytes(r.0));
    crate::codec::lemma_parse_u32_of_enc(b, off, r.0);
    assert(b.subrange(off + 4, off + 8) =~= enc.subrange(4, 8));
    assert(enc.subrange(4, 8) =~= spec_u32_to_le_bytes(r.1.mesh));
    crate::codec::lemma_parse_u32_of_enc(b, off + 4, r.1.mesh);
    assert(b.subrange(off + 8, off + 12) =~= enc.subrange(8, 12));
    assert(enc.subrange(8, 12) =~= spec_u32_to_le_bytes(r.1.start));
    crate::codec::lemma_parse_u32_of_enc(b, off + 8, r.1.start);
    assert(b.subrange(off + 12, off + 16) =~= enc.subrange(12, 16));
    assert(enc.subrange(12, 16) =~= spec_u32_to_le_bytes(r.1.length));
    crate::codec::lemma_parse_u32_of_enc(b, off + 12, r.1.length);
}

/// Parsing a payload written for a row list yields the rows back: reading
/// this column inverts writing it.
pub proof fn lemma_payload_round_trip(rows: Seq<(u32, Geometry<u32>)>)
    requires
        rows.len() <= u32::MAX,
    ensures
        sp_payload(payload_of(rows)) == Some(rows),
{
    vstd::bytes::lemma_auto_spec_u32_to_from_le_bytes();
    let b = payload_of(rows);
    let li = enc_list(rows, enc_row_fn());
    lemma_rows_len(rows);
    assert(b.subrange(0, 4) =~= spec_u32_to_le_bytes(rows.len() as u32));
    crate::codec::lemma_parse_u32_of_enc(b, 0, rows.len() as u32);
    assert(b.subrange(4, 4 + li.len() as int) =~= li);
    assert(forall|o: int, i: int|
        #![trigger sp_row_fn()(b, o), enc_row_fn()(rows[i])]
        0 <= i < rows.len() && 0 <= o && o + enc_row_fn()(rows[i]).len() <= b.len() && b.subrange(
            o,
            o + (enc_row_fn()(rows[i]).len() as int),
        ) == enc_row_fn()(rows[i]) ==> sp_row_fn()(b, o) == Some(
            (rows[i], o + enc_row_fn()(rows[i]).len()),
        )) by {
        assert forall|o: int, i: int|
            #![trigger sp_row_fn()(b, o), enc_row_fn()(rows[i])]
            0 <= i < rows.len() && 0 <= o && o + enc_row_fn()(rows[i]).len() <= b.len()
                && b.subrange(o, o + (enc_row_fn()(rows[i]).len() as int)) == enc_row_fn()(
                rows[i],
            ) implies sp_row_fn()(b, o) == Some((rows[i], o + enc_row_fn()(rows[i]).len())) by {
            lemma_parse_row_of_enc(b, o, rows[i]);
        }
    }
    crate::codec::lemma_parse_list_of_enc(b, 4, rows, enc_row_fn(), sp_row_fn());
}

} // verus!
