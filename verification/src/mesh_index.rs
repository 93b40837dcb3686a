//! The `mesh_index` column: one row per mesh entity, carrying its index
//! buffer.
//!
//! Payload layout: a 32-bit row count, then per row the entity index, a
//! 32-bit element count, and that many little-endian 32-bit indices.

use vstd::prelude::*;
use vstd::bytes::spec_u32_to_le_bytes;
use vstd::utf8::{is_ascii_chars, is_ascii_chars_encode_utf8};
use crate::builder::Builder;
use crate::codec::{enc_list, lemma_enc_list_push, parse_u32, put_u32, sp_list, sp_u32};
use crate::container::{parse_u32_list, sp_u32_fn, enc_u32_fn};
use crate::message::{col_first_match, ColumnV};
use crate::reader::ReaderMapping;

verus! {

/// The mathematical view of a row: the entity index and its index buffer.
pub open spec fn rows_view(s: Seq<(u32, Vec<u32>)>) -> Seq<(u32, Seq<u32>)> {
    s.map_values(|r: (u32, Vec<u32>)| (r.0, r.1@))
}

/// Encode one row.
pub open spec fn enc_row(r: (u32, Seq<u32>)) -> Seq<u8> {
    spec_u32_to_le_bytes(r.0) + spec_u32_to_le_bytes(r.1.len() as u32) + enc_list(
        r.1,
        enc_u32_fn(),
    )
}

/// The row encoder as a function value.
pub open spec fn enc_row_fn() -> spec_fn((u32, Seq<u32>)) -> Seq<u8> {
    |r: (u32, Seq<u32>)| enc_row(r)
}

/// Parse one row.
pub open spec fn sp_row(b: Seq<u8>, off: int) -> Option<((u32, Seq<u32>), int)> {
    match sp_u32(b, off) {
        None => None,
        Some((id, o1)) => match sp_u32(b, o1) {
            None => None,
            Some((cnt, o2)) => match sp_list(b, o2, cnt as int, sp_u32_fn()) {
                None => None,
                Some((idxs, o3)) => Some(((id, idxs), o3)),
            },
        },
    }
}

/// The row parser as a function value.
pub open spec fn sp_row_fn() -> spec_fn(Seq<u8>, int) -> Option<((u32, Seq<u32>), int)> {
    |b: Seq<u8>, off: int| sp_row(b, off)
}

/// The whole column payload for a row list.
pub open spec fn payload_of(rows: Seq<(u32, Seq<u32>)>) -> Seq<u8> {
    spec_u32_to_le_bytes(rows.len() as u32) + enc_list(rows, enc_row_fn())
}

/// Parse a whole column payload; the rows must fill it exactly.
pub open spec fn sp_payload(b: Seq<u8>) -> Option<Seq<(u32, Seq<u32>)>> {
    match sp_u32(b, 0) {
        None => None,
        Some((n, o)) => match sp_list(b, o, n as int, sp_row_fn()) {
            None => None,
            Some((rows, end)) => if end == b.len() {
                Some(rows)
            } else {
                None
            },
        },
    }
}

/// Whether a row's entity reference resolves among `n` entities.
pub open spec fn row_ok(r: (u32, Seq<u32>), n: int) -> bool {
    r.0 < n
}

/// The rows whose entity reference resolves among `n` entities, in order.
pub open spec fn kept(rows: Seq<(u32, Seq<u32>)>, n: int) -> Seq<(u32, Seq<u32>)>
    decreases rows.len(),
{
    if rows.len() == 0 {
        Seq::empty()
    } else {
        kept(rows.drop_last(), n) + if row_ok(rows.last(), n) {
            seq![rows.last()]
        } else {
            Seq::empty()
        }
    }
}

/// Parsing the encoding of a row embedded in a larger sequence yields it
/// back.
proof fn lemma_parse_row_of_enc(b: Seq<u8>, off: int, r: (u32, Seq<u32>))
    requires
        0 <= off,
        r.1.len() <= u32::MAX,
        off + enc_row(r).len() <= b.len(),
        b.subrange(off, off + enc_row(r).len()) == enc_row(r),
    ensures
        sp_row(b, off) == Some((r, off + enc_row(r).len())),
{
    vstd::bytes::lemma_auto_spec_u32_to_from_le_bytes();
    let enc = enc_row(r);
    let total = enc.len() as int;
    let li = enc_list(r.1, enc_u32_fn());
    assert(b.subrange(off, off + 4) =~= enc.subrange(0, 4));
    assert(enc.subrange(0, 4) =~= spec_u32_to_le_bytes(r.0));
    crate::codec::lemma_parse_u32_of_enc(b, off, r.0);
    assert(b.subrange(off + 4, off + 8) =~= enc.subrange(4, 8));
    assert(enc.subrange(4, 8) =~= spec_u32_to_le_bytes(r.1.len() as u32));
    crate::codec::lemma_parse_u32_of_enc(b, off + 4, r.1.len() as u32);
    assert(b.subrange(off + 8, off + 8 + li.len()) =~= enc.subrange(8, total));
    assert(enc.subrange(8, total) =~= li);
    assert(forall|o: int, i: int|
        #![trigger sp_u32_fn()(b, o), enc_u32_fn()(r.1[i])]
        0 <= i < r.1.len() && 0 <= o && o + enc_u32_fn()(r.1[i]).len() <= b.len() && b.subrange(
            o,
            o + (enc_u32_fn()(r.1[i]).len() as int),
        ) == enc_u32_fn()(r.1[i]) ==> sp_u32_fn()(b, o) == Some(
            (r.1[i], o + enc_u32_fn()(r.1[i]).len()),
        )) by {
        assert forall|o: int, i: int|
            #![trigger sp_u32_fn()(b, o), enc_u32_fn()(r.1[i])]
            0 <= i < r.1.len() && 0 <= o && o + enc_u32_fn()(r.1[i]).len() <= b.len()
                && b.subrange(o, o + (enc_u32_fn()(r.1[i]).len() as int)) == enc_u32_fn()(
                r.1[i],
            ) implies sp_u32_fn()(b, o) == Some((r.1[i], o + enc_u32_fn()(r.1[i]).len())) by {
            crate::codec::lemma_parse_u32_of_enc(b, o, r.1[i]);
        }
    }
    crate::codec::lemma_parse_list_of_enc(b, off + 8, r.1, enc_u32_fn(), sp_u32_fn());
}

/// Write the rows as the `mesh_index` column, replacing any previous payload
/// of that column.
pub fn write(hb: &mut Builder, rows: &[(u32, Vec<u32>)])
    requires
        old(hb)@.wf(),
        old(hb)@.columns.len() < u32::MAX,
        rows@.len() <= u32::MAX,
        forall|i: int| 0 <= i < rows@.len() ==> (#[trigger] rows@[i]).1@.len() <= u32::MAX,
        payload_of(rows_view(rows@)).len() <= u32::MAX,
    ensures
        final(hb)@.uuid == old(hb)@.uuid,
        final(hb)@.entities == old(hb)@.entities,
        final(hb)@.external == old(hb)@.external,
        ({
            let cs = old(hb)@.columns;
            let data = payload_of(rows_view(rows@));
            match col_first_match(cs, "mesh_index"@) {
                Some(j) => final(hb)@.columns == cs.update(
                    j,
                    ColumnV { name: cs[j].name, data },
                ),
                None => final(hb)@.columns == cs.push(ColumnV { name: "mesh_index"@, data }),
            }
        }),
        final(hb)@.wf(),
{
    proof {
        vstd::bytes::lemma_auto_spec_u32_to_from_le_bytes();
        reveal_strlit("mesh_index");
        assert(is_ascii_chars("mesh_index"@));
        is_ascii_chars_encode_utf8("mesh_index"@);
        assert(rows_view(rows@).len() == rows@.len());
    }
    let idx = hb.column("mesh_index");
    let mut data: Vec<u8> = Vec::new();
    put_u32(&mut data, rows.len() as u32);
    let ghost data1 = data@;
    let ghost rv = rows_view(rows@);
    let n = rows.len();
    proof {
        assert(rv.take(0) =~= Seq::<(u32, Seq<u32>)>::empty());
    }
    #[verifier::loop_isolation(false)]
    for i in 0..n
        invariant
            data@ == data1 + enc_list(rv.take(i as int), enc_row_fn()),
    {
        proof {
            assert(rv[i as int] == (rows@[i as int].0, rows@[i as int].1@));
        }
        let id = rows[i].0;
        let idxs = &rows[i].1;
        put_u32(&mut data, id);
        put_u32(&mut data, idxs.len() as u32);
        let ghost data2 = data@;
        let m = idxs.len();
        proof {
            assert(idxs@.take(0) =~= Seq::<u32>::empty());
        }
        #[verifier::loop_isolation(false)]
        for k in 0..m
            invariant
                data@ == data2 + enc_list(idxs@.take(k as int), enc_u32_fn()),
        {
            put_u32(&mut data, idxs[k]);
            proof {
                lemma_enc_list_push(idxs@.take(k as int), idxs@[k as int], enc_u32_fn());
                assert(idxs@.take(k + 1) =~= idxs@.take(k as int).push(idxs@[k as int]));
                assert(data@ =~= data2 + enc_list(idxs@.take(k + 1), enc_u32_fn()));
            }
        }
        proof {
            assert(idxs@.take(m as int) =~= idxs@);
            lemma_enc_list_push(rv.take(i as int), rv[i as int], enc_row_fn());
            assert(rv.take(i + 1) =~= rv.take(i as int).push(rv[i as int]));
            assert(data@ =~= data1 + enc_list(rv.take(i + 1), enc_row_fn()));
        }
    }
    proof {
        assert(rv.take(n as int) =~= rv);
        assert(data@ =~= payload_of(rv));
    }
    hb.set_column_data(idx, data);
    proof {
        let cs = old(hb)@.columns;
        if col_first_match(cs, "mesh_index"@) is None {
            assert(final(hb)@.columns =~= cs.push(
                ColumnV { name: "mesh_index"@, data: payload_of(rv) },
            ));
        }
    }
}

/// Read the `mesh_index` column through a mapping: the decoded rows whose
/// entity reference resolves, in order.  Absent when the column is missing
/// or its payload is malformed.
pub fn read<E>(m: &ReaderMapping<'_, E>) -> (r: Option<Vec<(u32, Vec<u32>)>>)
    ensures
        ({
            let rv = m.reader_spec()@;
            let n = m.entities_spec().len();
            match col_first_match(rv.columns, "mesh_index"@) {
                None => r is None,
                Some(j) => match sp_payload(rv.columns[j].data) {
                    None => r is None,
                    Some(rows) => r matches Some(v) && rows_view(v@) == kept(rows, n as int),
                },
            }
        }),
{
    let rd = m.reader();
    let d = match rd.column("mesh_index") {
        None => {
            return None;
        },
        Some(d) => d,
    };
    let ghost b = d@;
    let (nrows, o0) = match parse_u32(d.as_slice(), 0) {
        None => {
            return None;
        },
        Some(p) => p,
    };
    let ghost f = sp_row_fn();
    let mut rows: Vec<(u32, Vec<u32>)> = Vec::new();
    let mut cur = o0;
    let mut i: u32 = 0;
    proof {
        assert(rows_view(rows@) =~= Seq::<(u32, Seq<u32>)>::empty());
    }
    #[verifier::loop_isolation(false)]
    while i < nrows
        invariant
            cur <= b.len(),
            b == d@,
            rows@.len() == i,
            i <= nrows,
            f == sp_row_fn(),
            sp_list(b, o0 as int, nrows as int, f) == (match sp_list(b, cur as int, nrows - i, f) {
                None => None::<(Seq<(u32, Seq<u32>)>, int)>,
                Some(p) => Some((rows_view(rows@) + p.0, p.1)),
            }),
        decreases nrows - i,
    {
        let ghost rows0 = rows_view(rows@);
        let ghost cur0 = cur;
        let (id, o1) = match parse_u32(d.as_slice(), cur) {
            None => {
                proof {
                    assert(sp_list(b, cur as int, nrows - i, f) is None);
                }
                return None;
            },
            Some(p) => p,
        };
        let (cnt, o2) = match parse_u32(d.as_slice(), o1) {
            None => {
                proof {
                    assert(sp_list(b, cur as int, nrows - i, f) is None);
                }
                return None;
            },
            Some(p) => p,
        };
        let (idxs, o3) = match parse_u32_list(d.as_slice(), o2, cnt) {
            None => {
                proof {
                    assert(sp_list(b, cur as int, nrows - i, f) is None);
                }
                return None;
            },
            Some(p) => p,
        };
        let ghost rowv = (id, idxs@);
        proof {
            let tail = sp_list(b, o3 as int, nrows - i - 1, f);
            assert(f(b, cur0 as int) == sp_row(b, cur0 as int));
            assert(sp_row(b, cur0 as int) == Some((rowv, o3 as int)));
            assert(sp_list(b, cur0 as int, nrows - i, f) == (match tail {
                None => None::<(Seq<(u32, Seq<u32>)>, int)>,
                Some(p) => Some((seq![rowv] + p.0, p.1)),
            }));
            if tail is Some {
                let (rest, end) = tail->Some_0;
                assert(rows0.push(rowv) + rest =~= rows0 + (seq![rowv] + rest));
            }
        }
        rows.push((id, idxs));
        cur = o3;
        i = i + 1;
        proof {
            assert(rows_view(rows@) =~= rows0.push(rowv));
        }
    }
    proof {
        assert(sp_list(b, cur as int, 0, f) == Some(
            (Seq::<(u32, Seq<u32>)>::empty(), cur as int),
        ));
        assert(rows_view(rows@) + Seq::<(u32, Seq<u32>)>::empty() =~= rows_view(rows@));
    }
    if cur != d.len() {
        return None;
    }
    let ghost parsed = rows_view(rows@);
    proof {
        assert(sp_payload(b) == Some(parsed));
    }
    let n = m.len();
    let mut out: Vec<(u32, Vec<u32>)> = Vec::new();
    let total = rows.len();
    proof {
        assert(kept(parsed.take(0), n as int) =~= Seq::<(u32, Seq<u32>)>::empty());
        assert(rows_view(out@) =~= Seq::<(u32, Seq<u32>)>::empty());
    }
    #[verifier::loop_isolation(false)]
    for k in 0..total
        invariant
            rows_view(out@) == kept(parsed.take(k as int), n as int),
    {
        let ghost out0 = rows_view(out@);
        proof {
            assert(parsed[k as int] == (rows@[k as int].0, rows@[k as int].1@));
        }
        let id = rows[k].0;
        if (id as usize) < n {
            let idxs = rows[k].1.clone();
            proof {
                assert(idxs@ == rows@[k as int].1@);
            }
            out.push((id, idxs));
            proof {
                assert(rows_view(out@) =~= out0.push(parsed[k as int]));
            }
        }
        proof {
            assert(parsed.take(k + 1).drop_last() =~= parsed.take(k as int));
            assert(parsed.take(k + 1).last() == parsed[k as int]);
            assert(rows_view(out@) =~= kept(parsed.take(k + 1), n as int));
        }
    }
    proof {
        assert(parsed.take(total as int) =~= parsed);
    }
    Some(out)
}


/// Parsing a payload written for a row list yields the rows back: reading
/// this column inverts writing it.
pub proof fn lemma_payload_round_trip(rows: Seq<(u32, Seq<u32>)>)
    requires
        rows.len() <= u32::MAX,
        forall|i: int| 0 <= i < rows.len() ==> (#[trigger] rows[i]).1.len() <= u32::MAX,
    ensures
        sp_payload(payload_of(rows)) == Some(rows),
{
    vstd::bytes::lemma_auto_spec_u32_to_from_le_bytes();
    let b = payload_of(rows);
    let li = enc_list(rows, enc_row_fn());
    assert(b.subrange(0, 4) =~= spec_u32_to_le_bytes(rows.len() as u32));
    crate::codec::lemma_parse_u32_of_enc(b, 0, rows.len() as u32);
    assert(b.subrange(4, 4 + li.len() as int) =~= li);
    assert(forall|o: int, i: int|
        #![trigger sp_row_fn()(b, o), enc_row_fn()(rows[i])]
        0 <= i < rows.len() && 0 <= o && o + enc_row_fn()(rows[i]).len() <= b.len() && b.subrange(
            o,
            o + (enc_row_fn()(rows[i]).len() as int),
        ) == enc_row_fn()(rows[i]) ==> sp_row_fn()(b, o) == Some(
            (rows[i], o + enc_row_fn()(rows[i]).len()),
        )) by {
        assert forall|o: int, i: int|
            #![trigger sp_row_fn()(b, o), enc_row_fn()(rows[i])]
            0 <= i < rows.len() && 0 <= o && o + enc_row_fn()(rows[i]).len() <= b.len()
                && b.subrange(o, o + (enc_row_fn()(rows[i]).len() as int)) == enc_row_fn()(
                rows[i],
            ) implies sp_row_fn()(b, o) == Some((rows[i], o + enc_row_fn()(rows[i]).len())) by {
            lemma_parse_row_of_enc(b, o, rows[i]);
        }
    }
    crate::codec::lemma_parse_list_of_enc(b, 4, rows, enc_row_fn(), sp_row_fn());
}

} // verus!
