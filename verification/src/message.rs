//! The root message of a hairball: the entity table, the deduplicated list
//! of external-file UUIDs, and the named columns, in one canonical binary
//! encoding.
//!
//! The message is `entities count | entities | external count | 16-byte
//! UUIDs | column count | columns`, with every integer little-endian.  An
//! entity is a tag byte (`0` local, `1` external) followed by its fields; a
//! local entity's optional name is a presence byte and, when present,
//! length-prefixed UTF-8 text; its parent is a 32-bit index where
//! `0xFFFF_FFFF` means "no parent".  A column is its length-prefixed UTF-8
//! name followed by its length-prefixed payload bytes.

use vstd::prelude::*;
use vstd::bytes::spec_u32_to_le_bytes;
use vstd::utf8::encode_utf8;
use crate::codec::{
    sp_u8, sp_u32, sp_block, sp_str, sp_bytes, sp_list,
    enc_bytes, enc_str, enc_list,
    lemma_parse_u32_of_enc, lemma_parse_bytes_of_enc, lemma_parse_str_of_enc,
    lemma_parse_list_of_enc,
};
use crate::entity::{EntityRec, EntityW, NO_PARENT};
use crate::ident::Uuid;
use crate::codec::{parse_u8, parse_u32, parse_str, parse_bytes, put_u8, put_u32, put_str, put_bytes, lemma_enc_list_push};

verus! {

/// A named column and its opaque payload.
pub struct ColumnV {
    pub name: Seq<char>,
    pub data: Seq<u8>,
}

/// The root message: entity table, external-UUID list, columns.
pub struct MsgV {
    pub entities: Seq<EntityW>,
    pub external: Seq<Seq<u8>>,
    pub columns: Seq<ColumnV>,
}

// ---------------------------------------------------------------------------
// Well-formedness: what every message written by the `Builder` satisfies and
// what the encoding requires (counts and lengths fit their 32-bit fields; the
// parent sentinel is reserved).
// ---------------------------------------------------------------------------

/// An entity that can be stored: text fits its length field and no parent
/// index collides with the "no parent" sentinel.
pub open spec fn wf_entity(e: EntityW) -> bool {
    match e {
        EntityW::Local { name, parent } => {
            &&& match name {
                Some(n) => encode_utf8(n).len() <= u32::MAX,
                None => true,
            }
            &&& parent != Some(NO_PARENT)
        },
        EntityW::External { file, path } => encode_utf8(path).len() <= u32::MAX,
    }
}

/// A column that can be stored.
pub open spec fn wf_column(c: ColumnV) -> bool {
    encode_utf8(c.name).len() <= u32::MAX && c.data.len() <= u32::MAX
}

/// A message that can be stored.
pub open spec fn wf_msg(m: MsgV) -> bool {
    &&& m.entities.len() <= u32::MAX
    &&& forall|i: int| 0 <= i < m.entities.len() ==> wf_entity(#[trigger] m.entities[i])
    &&& m.external.len() <= u32::MAX
    &&& forall|i: int| 0 <= i < m.external.len() ==> (#[trigger] m.external[i]).len() == 16
    &&& m.columns.len() <= u32::MAX
    &&& forall|i: int| 0 <= i < m.columns.len() ==> wf_column(#[trigger] m.columns[i])
}

// ---------------------------------------------------------------------------
// Encoding.
// ---------------------------------------------------------------------------

/// The parent field as stored: the sentinel for "no parent".
pub open spec fn enc_parent(p: Option<u32>) -> u32 {
    match p {
        None => NO_PARENT,
        Some(x) => x,
    }
}

/// Encode one entity.
pub open spec fn enc_entity(e: EntityW) -> Seq<u8> {
    match e {
        EntityW::Local { name, parent } => seq![0u8] + match name {
            None => seq![0u8],
            Some(n) => seq![1u8] + enc_str(n),
        } + spec_u32_to_le_bytes(enc_parent(parent)),
        EntityW::External { file, path } => seq![1u8] + spec_u32_to_le_bytes(file) + enc_str(path),
    }
}

/// Encode one column.
pub open spec fn enc_column(c: ColumnV) -> Seq<u8> {
    enc_str(c.name) + enc_bytes(c.data)
}

/// The entity encoder as a function value, for list encoding.
pub open spec fn enc_entity_fn() -> spec_fn(EntityW) -> Seq<u8> {
    |e: EntityW| enc_entity(e)
}

/// The UUID encoder as a function value: a UUID is stored as its 16 raw bytes.
pub open spec fn enc_uuid_fn() -> spec_fn(Seq<u8>) -> Seq<u8> {
    |u: Seq<u8>| u
}

/// The column encoder as a function value.
pub open spec fn enc_column_fn() -> spec_fn(ColumnV) -> Seq<u8> {
    |c: ColumnV| enc_column(c)
}

/// Encode the whole root message.
pub open spec fn enc_msg(m: MsgV) -> Seq<u8>
    recommends
        wf_msg(m),
{
    spec_u32_to_le_bytes(m.entities.len() as u32) + enc_list(m.entities, enc_entity_fn())
        + spec_u32_to_le_bytes(m.external.len() as u32) + enc_list(m.external, enc_uuid_fn())
        + spec_u32_to_le_bytes(m.columns.len() as u32) + enc_list(m.columns, enc_column_fn())
}

// ---------------------------------------------------------------------------
// Parsing.
// ---------------------------------------------------------------------------

/// Decode the stored parent field.
pub open spec fn sp_parent(x: u32) -> Option<u32> {
    if x == NO_PARENT {
        None
    } else {
        Some(x)
    }
}

/// Parse one entity.
pub open spec fn sp_entity(b: Seq<u8>, off: int) -> Option<(EntityW, int)> {
    match sp_u8(b, off) {
        None => None,
        Some((tag, o1)) => if tag == 0 {
            match sp_u8(b, o1) {
                None => None,
                Some((flag, o2)) => if flag == 0 {
                    match sp_u32(b, o2) {
                        None => None,
                        Some((praw, o3)) => Some(
                            (EntityW::Local { name: None, parent: sp_parent(praw) }, o3),
                        ),
                    }
                } else if flag == 1 {
                    match sp_str(b, o2) {
                        None => None,
                        Some((n, o3)) => match sp_u32(b, o3) {
                            None => None,
                            Some((praw, o4)) => Some(
                                (EntityW::Local { name: Some(n), parent: sp_parent(praw) }, o4),
                            ),
                        },
                    }
                } else {
                    None
                },
            }
        } else if tag == 1 {
            match sp_u32(b, o1) {
                None => None,
                Some((file, o2)) => match sp_str(b, o2) {
                    None => None,
                    Some((path, o3)) => Some((EntityW::External { file, path }, o3)),
                },
            }
        } else {
            None
        },
    }
}

/// Parse one stored UUID: 16 raw bytes.
pub open spec fn sp_uuid16(b: Seq<u8>, off: int) -> Option<(Seq<u8>, int)> {
    sp_block(b, off, 16)
}

/// Parse one column.
pub open spec fn sp_column(b: Seq<u8>, off: int) -> Option<(ColumnV, int)> {
    match sp_str(b, off) {
        None => None,
        Some((name, o1)) => match sp_bytes(b, o1) {
            None => None,
            Some((data, o2)) => Some((ColumnV { name, data }, o2)),
        },
    }
}

/// The entity parser as a function value, for list parsing.
pub open spec fn sp_entity_fn() -> spec_fn(Seq<u8>, int) -> Option<(EntityW, int)> {
    |b: Seq<u8>, off: int| sp_entity(b, off)
}

/// The UUID parser as a function value.
pub open spec fn sp_uuid_fn() -> spec_fn(Seq<u8>, int) -> Option<(Seq<u8>, int)> {
    |b: Seq<u8>, off: int| sp_uuid16(b, off)
}

/// The column parser as a function value.
pub open spec fn sp_column_fn() -> spec_fn(Seq<u8>, int) -> Option<(ColumnV, int)> {
    |b: Seq<u8>, off: int| sp_column(b, off)
}

/// Parse the whole root message.
pub open spec fn sp_msg(b: Seq<u8>, off: int) -> Option<(MsgV, int)> {
    match sp_u32(b, off) {
        None => None,
        Some((ne, o1)) => match sp_list(b, o1, ne as int, sp_entity_fn()) {
            None => None,
            Some((es, o2)) => match sp_u32(b, o2) {
                None => None,
                Some((nx, o3)) => match sp_list(b, o3, nx as int, sp_uuid_fn()) {
                    None => None,
                    Some((xs, o4)) => match sp_u32(b, o4) {
                        None => None,
                        Some((nc, o5)) => match sp_list(b, o5, nc as int, sp_column_fn()) {
                            None => None,
                            Some((cs, o6)) => Some(
                                (MsgV { entities: es, external: xs, columns: cs }, o6),
                            ),
                        },
                    },
                },
            },
        },
    }
}

// ---------------------------------------------------------------------------
// Round trips: parsing an embedded encoding yields the encoded value.
// ---------------------------------------------------------------------------

/// Parsing the encoding of a well-formed entity yields it back.
pub proof fn lemma_parse_entity_of_enc(b: Seq<u8>, off: int, e: EntityW)
    requires
        0 <= off,
        wf_entity(e),
        off + enc_entity(e).len() <= b.len(),
        b.subrange(off, off + enc_entity(e).len()) == enc_entity(e),
    ensures
        sp_entity(b, off) == Some((e, off + enc_entity(e).len())),
{
    vstd::bytes::lemma_auto_spec_u32_to_from_le_bytes();
    let enc = enc_entity(e);
    let total = enc.len() as int;
    match e {
        EntityW::Local { name, parent } => {
            let praw = enc_parent(parent);
            match name {
                None => {
                    assert(enc == seq![0u8] + seq![0u8] + spec_u32_to_le_bytes(praw));
                    assert(b[off] == 0u8) by {
                        assert(b.subrange(off, off + total)[0] == 0u8);
                    }
                    assert(b[off + 1] == 0u8) by {
                        assert(b.subrange(off, off + total)[1] == 0u8);
                    }
                    assert(b.subrange(off + 2, off + 6) =~= enc.subrange(2, 6));
                    assert(enc.subrange(2, 6) =~= spec_u32_to_le_bytes(praw));
                    lemma_parse_u32_of_enc(b, off + 2, praw);
                },
                Some(n) => {
                    let es = enc_str(n);
                    assert(enc == seq![0u8] + (seq![1u8] + es) + spec_u32_to_le_bytes(praw));
                    assert(b[off] == 0u8) by {
                        assert(b.subrange(off, off + total)[0] == 0u8);
                    }
                    assert(b[off + 1] == 1u8) by {
                        assert(b.subrange(off, off + total)[1] == 1u8);
                    }
                    assert(b.subrange(off + 2, off + 2 + es.len()) =~= enc.subrange(
                        2,
                        2 + es.len() as int,
                    ));
                    assert(enc.subrange(2, 2 + es.len() as int) =~= es);
                    lemma_parse_str_of_enc(b, off + 2, n);
                    let o3 = off + 2 + es.len() as int;
                    assert(b.subrange(o3, o3 + 4) =~= enc.subrange(2 + es.len() as int, total));
                    assert(enc.subrange(2 + es.len() as int, total) =~= spec_u32_to_le_bytes(praw));
                    lemma_parse_u32_of_enc(b, o3, praw);
                },
            }
        },
        EntityW::External { file, path } => {
            let es = enc_str(path);
            assert(enc == seq![1u8] + spec_u32_to_le_bytes(file) + es);
            assert(b[off] == 1u8) by {
                assert(b.subrange(off, off + total)[0] == 1u8);
            }
            assert(b.subrange(off + 1, off + 5) =~= enc.subrange(1, 5));
            assert(enc.subrange(1, 5) =~= spec_u32_to_le_bytes(file));
            lemma_parse_u32_of_enc(b, off + 1, file);
            assert(b.subrange(off + 5, off + 5 + es.len()) =~= enc.subrange(5, total));
            assert(enc.subrange(5, total) =~= es);
            lemma_parse_str_of_enc(b, off + 5, path);
        },
    }
}

/// Parsing the encoding of a well-formed column yields it back.
pub proof fn lemma_parse_column_of_enc(b: Seq<u8>, off: int, c: ColumnV)
    requires
        0 <= off,
        wf_column(c),
        off + enc_column(c).len() <= b.len(),
        b.subrange(off, off + enc_column(c).len()) == enc_column(c),
    ensures
        sp_column(b, off) == Some((c, off + enc_column(c).len())),
{
    vstd::bytes::lemma_auto_spec_u32_to_from_le_bytes();
    let enc = enc_column(c);
    let total = enc.len() as int;
    let es = enc_str(c.name);
    assert(b.subrange(off, off + es.len()) =~= enc.subrange(0, es.len() as int));
    assert(enc.subrange(0, es.len() as int) =~= es);
    lemma_parse_str_of_enc(b, off, c.name);
    let o1 = off + es.len() as int;
    assert(b.subrange(o1, off + total) =~= enc.subrange(es.len() as int, total));
    assert(enc.subrange(es.len() as int, total) =~= enc_bytes(c.data));
    lemma_parse_bytes_of_enc(b, o1, c.data);
}

/// Parsing the encoding of a well-formed message yields it back.
#[verifier::rlimit(50)]
#[verifier::spinoff_prover]
pub proof fn lemma_parse_msg_of_enc(b: Seq<u8>, off: int, m: MsgV)
    requires
        0 <= off,
        wf_msg(m),
        off + enc_msg(m).len() <= b.len(),
        b.subrange(off, off + enc_msg(m).len()) == enc_msg(m),
    ensures
        sp_msg(b, off) == Some((m, off + enc_msg(m).len())),
{
    let enc = enc_msg(m);
    let total = enc.len() as int;
    let ne = spec_u32_to_le_bytes(m.entities.len() as u32);
    let le = enc_list(m.entities, enc_entity_fn());
    let nx = spec_u32_to_le_bytes(m.external.len() as u32);
    let lx = enc_list(m.external, enc_uuid_fn());
    let nc = spec_u32_to_le_bytes(m.columns.len() as u32);
    let lc = enc_list(m.columns, enc_column_fn());
    let p0 = off;
    let p1 = p0 + 4;
    let p2 = p1 + le.len() as int;
    let p3 = p2 + 4;
    let p4 = p3 + lx.len() as int;
    let p5 = p4 + 4;
    let p6 = p5 + lc.len() as int;
    assert(ne.len() == 4 && nx.len() == 4 && nc.len() == 4) by {
        vstd::bytes::lemma_auto_spec_u32_to_from_le_bytes();
    }
    assert(enc == ne + le + nx + lx + nc + lc);
    assert(p6 == off + total);

    assert(b.subrange(p0, p1) =~= enc.subrange(0, 4));
    assert(enc.subrange(0, 4) =~= ne);
    lemma_parse_u32_of_enc(b, p0, m.entities.len() as u32);

    assert(b.subrange(p1, p2) =~= enc.subrange(4, 4 + le.len() as int));
    assert(enc.subrange(4, 4 + le.len() as int) =~= le);
    assert(forall|o: int, i: int|
        #![trigger sp_entity_fn()(b, o), enc_entity_fn()(m.entities[i])]
        0 <= i < m.entities.len() && 0 <= o && o + enc_entity_fn()(m.entities[i]).len() <= b.len()
            && b.subrange(o, o + (enc_entity_fn()(m.entities[i]).len() as int)) == enc_entity_fn()(
            m.entities[i],
        ) ==> sp_entity_fn()(b, o) == Some(
            (m.entities[i], o + enc_entity_fn()(m.entities[i]).len()),
        )) by {
        assert forall|o: int, i: int|
            #![trigger sp_entity_fn()(b, o), enc_entity_fn()(m.entities[i])]
            0 <= i < m.entities.len() && 0 <= o && o + enc_entity_fn()(
                m.entities[i],
            ).len() <= b.len() && b.subrange(
                o,
                o + (enc_entity_fn()(m.entities[i]).len() as int),
            ) == enc_entity_fn()(m.entities[i]) implies sp_entity_fn()(b, o) == Some(
            (m.entities[i], o + enc_entity_fn()(m.entities[i]).len()),
        ) by {
            lemma_parse_entity_of_enc(b, o, m.entities[i]);
        }
    }
    lemma_parse_list_of_enc(b, p1, m.entities, enc_entity_fn(), sp_entity_fn());

    assert(b.subrange(p2, p3) =~= enc.subrange(p2 - off, p3 - off));
    assert(enc.subrange(p2 - off, p3 - off) =~= nx);
    lemma_parse_u32_of_enc(b, p2, m.external.len() as u32);

    assert(b.subrange(p3, p4) =~= enc.subrange(p3 - off, p4 - off));
    assert(enc.subrange(p3 - off, p4 - off) =~= lx);
    assert(forall|o: int, i: int|
        #![trigger sp_uuid_fn()(b, o), enc_uuid_fn()(m.external[i])]
        0 <= i < m.external.len() && 0 <= o && o + enc_uuid_fn()(m.external[i]).len() <= b.len()
            && b.subrange(o, o + (enc_uuid_fn()(m.external[i]).len() as int)) == enc_uuid_fn()(
            m.external[i],
        ) ==> sp_uuid_fn()(b, o) == Some(
            (m.external[i], o + enc_uuid_fn()(m.external[i]).len()),
        ));
    lemma_parse_list_of_enc(b, p3, m.external, enc_uuid_fn(), sp_uuid_fn());

    assert(b.subrange(p4, p5) =~= enc.subrange(p4 - off, p5 - off));
    assert(enc.subrange(p4 - off, p5 - off) =~= nc);
    lemma_parse_u32_of_enc(b, p4, m.columns.len() as u32);

    assert(b.subrange(p5, p6) =~= enc.subrange(p5 - off, p6 - off));
    assert(enc.subrange(p5 - off, p6 - off) =~= lc);
    assert(forall|o: int, i: int|
        #![trigger sp_column_fn()(b, o), enc_column_fn()(m.columns[i])]
        0 <= i < m.columns.len() && 0 <= o && o + enc_column_fn()(m.columns[i]).len() <= b.len()
            && b.subrange(o, o + (enc_column_fn()(m.columns[i]).len() as int)) == enc_column_fn()(
            m.columns[i],
        ) ==> sp_column_fn()(b, o) == Some(
            (m.columns[i], o + enc_column_fn()(m.columns[i]).len()),
        )) by {
        assert forall|o: int, i: int|
            #![trigger sp_column_fn()(b, o), enc_column_fn()(m.columns[i])]
            0 <= i < m.columns.len() && 0 <= o && o + enc_column_fn()(
                m.columns[i],
            ).len() <= b.len() && b.subrange(
                o,
                o + (enc_column_fn()(m.columns[i]).len() as int),
            ) == enc_column_fn()(m.columns[i]) implies sp_column_fn()(b, o) == Some(
            (m.columns[i], o + enc_column_fn()(m.columns[i]).len()),
        ) by {
            lemma_parse_column_of_enc(b, o, m.columns[i]);
        }
    }
    lemma_parse_list_of_enc(b, p5, m.columns, enc_column_fn(), sp_column_fn());
}

// ---------------------------------------------------------------------------
// First-match lookups, shared by the writer (find-or-create) and the reader.
// ---------------------------------------------------------------------------

/// Index of the first column with the given name, if any.
pub open spec fn col_first_match(cs: Seq<ColumnV>, name: Seq<char>) -> Option<int>
    decreases cs.len(),
{
    if cs.len() == 0 {
        None
    } else if cs[0].name == name {
        Some(0int)
    } else {
        match col_first_match(cs.drop_first(), name) {
            None => None,
            Some(j) => Some(j + 1),
        }
    }
}

/// Index of the first stored UUID equal to `u`, if any.
pub open spec fn uuid_first_match(s: Seq<Seq<u8>>, u: Seq<u8>) -> Option<int>
    decreases s.len(),
{
    if s.len() == 0 {
        None
    } else if s[0] == u {
        Some(0int)
    } else {
        match uuid_first_match(s.drop_first(), u) {
            None => None,
            Some(j) => Some(j + 1),
        }
    }
}

/// If the first `i` columns miss and column `i` hits, the first match is `i`.
pub proof fn lemma_col_first_match_at(cs: Seq<ColumnV>, name: Seq<char>, i: int)
    requires
        0 <= i < cs.len(),
        cs[i].name == name,
        forall|k: int| 0 <= k < i ==> (#[trigger] cs[k]).name != name,
    ensures
        col_first_match(cs, name) == Some(i),
    decreases i,
{
    if i == 0 {
    } else {
        assert(cs.drop_first()[i - 1] == cs[i]);
        assert(forall|k: int|
            0 <= k < i - 1 ==> (#[trigger] cs.drop_first()[k]).name != name) by {
            assert(forall|k: int| 0 <= k < i - 1 ==> cs.drop_first()[k] == #[trigger] cs[k + 1]);
        }
        lemma_col_first_match_at(cs.drop_first(), name, i - 1);
    }
}

/// If no column has the name, there is no match.
pub proof fn lemma_col_first_match_none(cs: Seq<ColumnV>, name: Seq<char>)
    requires
        forall|k: int| 0 <= k < cs.len() ==> (#[trigger] cs[k]).name != name,
    ensures
        col_first_match(cs, name) is None,
    decreases cs.len(),
{
    if cs.len() > 0 {
        assert(forall|k: int|
            0 <= k < cs.len() - 1 ==> (#[trigger] cs.drop_first()[k]).name != name) by {
            assert(forall|k: int|
                0 <= k < cs.len() - 1 ==> cs.drop_first()[k] == #[trigger] cs[k + 1]);
        }
        lemma_col_first_match_none(cs.drop_first(), name);
    }
}

/// When there is no match, no column has the name.
pub proof fn lemma_col_first_match_none_inv(cs: Seq<ColumnV>, name: Seq<char>)
    requires
        col_first_match(cs, name) is None,
    ensures
        forall|k: int| 0 <= k < cs.len() ==> (#[trigger] cs[k]).name != name,
    decreases cs.len(),
{
    if cs.len() > 0 {
        lemma_col_first_match_none_inv(cs.drop_first(), name);
        assert(forall|k: int|
            1 <= k < cs.len() ==> (#[trigger] cs[k]).name == cs.drop_first()[k - 1].name);
    }
}

/// If the first `i` stored UUIDs miss and entry `i` hits, the first match is `i`.
pub proof fn lemma_uuid_first_match_at(s: Seq<Seq<u8>>, u: Seq<u8>, i: int)
    requires
        0 <= i < s.len(),
        s[i] == u,
        forall|k: int| 0 <= k < i ==> #[trigger] s[k] != u,
    ensures
        uuid_first_match(s, u) == Some(i),
    decreases i,
{
    if i == 0 {
    } else {
        assert(s.drop_first()[i - 1] == s[i]);
        assert(forall|k: int| 0 <= k < i - 1 ==> #[trigger] s.drop_first()[k] != u) by {
            assert(forall|k: int| 0 <= k < i - 1 ==> s.drop_first()[k] == #[trigger] s[k + 1]);
        }
        lemma_uuid_first_match_at(s.drop_first(), u, i - 1);
    }
}

/// If no stored UUID equals `u`, there is no match.
pub proof fn lemma_uuid_first_match_none(s: Seq<Seq<u8>>, u: Seq<u8>)
    requires
        forall|k: int| 0 <= k < s.len() ==> #[trigger] s[k] != u,
    ensures
        uuid_first_match(s, u) is None,
    decreases s.len(),
{
    if s.len() > 0 {
        assert(forall|k: int| 0 <= k < s.len() - 1 ==> #[trigger] s.drop_first()[k] != u) by {
            assert(forall|k: int| 0 <= k < s.len() - 1 ==> s.drop_first()[k] == #[trigger] s[k + 1]);
        }
        lemma_uuid_first_match_none(s.drop_first(), u);
    }
}

// ---------------------------------------------------------------------------
// Executable records mirroring the wire form.
// ---------------------------------------------------------------------------

/// A column as held in memory.
pub(crate) struct ColumnRec {
    pub name: String,
    pub data: Vec<u8>,
}

impl View for ColumnRec {
    type V = ColumnV;

    open(crate) spec fn view(&self) -> ColumnV {
        ColumnV { name: self.name@, data: self.data@ }
    }
}

/// The whole root message as held in memory.
pub(crate) struct MsgRec {
    pub entities: Vec<EntityRec>,
    pub external: Vec<Uuid>,
    pub columns: Vec<ColumnRec>,
}

/// The wire view of a sequence of in-memory entities.
pub(crate) open(crate) spec fn recs_view(s: Seq<EntityRec>) -> Seq<EntityW> {
    s.map_values(|r: EntityRec| r@)
}

/// The byte view of a sequence of identifiers.
pub(crate) open(crate) spec fn uuids_view(s: Seq<Uuid>) -> Seq<Seq<u8>> {
    s.map_values(|u: Uuid| u@)
}

/// The wire view of a sequence of in-memory columns.
pub(crate) open(crate) spec fn cols_view(s: Seq<ColumnRec>) -> Seq<ColumnV> {
    s.map_values(|c: ColumnRec| c@)
}

impl View for MsgRec {
    type V = MsgV;

    open(crate) spec fn view(&self) -> MsgV {
        MsgV {
            entities: recs_view(self.entities@),
            external: uuids_view(self.external@),
            columns: cols_view(self.columns@),
        }
    }
}

// ---------------------------------------------------------------------------
// Executable parsing.
// ---------------------------------------------------------------------------

/// Decode the stored parent field.
pub(crate) fn dec_parent(x: u32) -> (r: Option<u32>)
    ensures
        r == sp_parent(x),
{
    if x == NO_PARENT {
        None
    } else {
        Some(x)
    }
}

/// Parse one entity at `off`.
pub(crate) fn parse_entity(data: &[u8], off: usize) -> (r: Option<(EntityRec, usize)>)
    requires
        off <= data@.len(),
    ensures
        match r {
            Some(p) => sp_entity(data@, off as int) == Some((p.0@, p.1 as int)) && p.1
                <= data@.len(),
            None => sp_entity(data@, off as int) is None,
        },
{
    match parse_u8(data, off) {
        None => None,
        Some((tag, o1)) => if tag == 0 {
            match parse_u8(data, o1) {
                None => None,
                Some((flag, o2)) => if flag == 0 {
                    match parse_u32(data, o2) {
                        None => None,
                        Some((praw, o3)) => Some(
                            (EntityRec::Local { name: None, parent: dec_parent(praw) }, o3),
                        ),
                    }
                } else if flag == 1 {
                    match parse_str(data, o2) {
                        None => None,
                        Some((n, o3)) => match parse_u32(data, o3) {
                            None => None,
                            Some((praw, o4)) => Some(
                                (EntityRec::Local { name: Some(n), parent: dec_parent(praw) }, o4),
                            ),
                        },
                    }
                } else {
                    None
                },
            }
        } else if tag == 1 {
            match parse_u32(data, o1) {
                None => None,
                Some((file, o2)) => match parse_str(data, o2) {
                    None => None,
                    Some((path, o3)) => Some((EntityRec::External { file, path }, o3)),
                },
            }
        } else {
            None
        },
    }
}

/// Parse one stored UUID at `off`.
pub(crate) fn parse_uuid16(data: &[u8], off: usize) -> (r: Option<(Uuid, usize)>)
    requires
        off <= data@.len(),
    ensures
        match r {
            Some(p) => sp_uuid16(data@, off as int) == Some((p.0@, p.1 as int)) && p.1
                <= data@.len(),
            None => sp_uuid16(data@, off as int) is None,
        },
{
    if data.len() - off >= 16 {
        let u = Uuid::from_bytes(vstd::slice::slice_subrange(data, off, off + 16));
        proof {
            assert(data@.subrange(off as int, off as int + 16) =~= u@);
        }
        Some((u, off + 16))
    } else {
        None
    }
}

/// Parse one column at `off`.
pub(crate) fn parse_column(data: &[u8], off: usize) -> (r: Option<(ColumnRec, usize)>)
    requires
        off <= data@.len(),
    ensures
        match r {
            Some(p) => sp_column(data@, off as int) == Some((p.0@, p.1 as int)) && p.1
                <= data@.len(),
            None => sp_column(data@, off as int) is None,
        },
{
    match parse_str(data, off) {
        None => None,
        Some((name, o1)) => match parse_bytes(data, o1) {
            None => None,
            Some((data_bytes, o2)) => Some((ColumnRec { name, data: data_bytes }, o2)),
        },
    }
}

/// Parse `n` entities at `off`.
pub(crate) fn parse_entity_list(data: &[u8], off: usize, n: u32) -> (r: Option<
    (Vec<EntityRec>, usize),
>)
    requires
        off <= data@.len(),
    ensures
        match r {
            Some(p) => sp_list(data@, off as int, n as int, sp_entity_fn()) == Some(
                (recs_view(p.0@), p.1 as int),
            ) && p.1 <= data@.len(),
            None => sp_list(data@, off as int, n as int, sp_entity_fn()) is None,
        },
{
    let ghost f = sp_entity_fn();
    let mut acc: Vec<EntityRec> = Vec::new();
    let mut cur = off;
    let mut i: u32 = 0;
    proof {
        assert(recs_view(acc@) =~= Seq::<EntityW>::empty());
    }
    while i < n
        invariant
            i <= n,
            off <= data@.len(),
            cur <= data@.len(),
            acc@.len() == i,
            f == sp_entity_fn(),
            sp_list(data@, off as int, n as int, f) == (match sp_list(
                data@,
                cur as int,
                n - i,
                f,
            ) {
                None => None::<(Seq<EntityW>, int)>,
                Some(p) => Some((recs_view(acc@) + p.0, p.1)),
            }),
        decreases n - i,
    {
        let ghost acc0 = acc@;
        let ghost cur0 = cur;
        match parse_entity(data, cur) {
            None => {
                proof {
                    assert(sp_list(data@, cur as int, n - i, f) is None);
                }
                return None;
            },
            Some((e, o2)) => {
                proof {
                    let tail = sp_list(data@, o2 as int, n - i - 1, f);
                    assert(f(data@, cur0 as int) == sp_entity(data@, cur0 as int));
                    assert(sp_list(data@, cur0 as int, n - i, f) == (match tail {
                        None => None::<(Seq<EntityW>, int)>,
                        Some(p) => Some((seq![e@] + p.0, p.1)),
                    }));
                    if tail is Some {
                        let (rest, end) = tail->Some_0;
                        assert(recs_view(acc0.push(e)) =~= recs_view(acc0).push(e@));
                        assert(recs_view(acc0).push(e@) + rest =~= recs_view(acc0) + (seq![e@]
                            + rest));
                    }
                }
                acc.push(e);
                cur = o2;
                i = i + 1;
            },
        }
    }
    proof {
        assert(sp_list(data@, cur as int, 0, f) == Some((Seq::<EntityW>::empty(), cur as int)));
        assert(recs_view(acc@) + Seq::<EntityW>::empty() =~= recs_view(acc@));
    }
    Some((acc, cur))
}

/// Parse `n` stored UUIDs at `off`.
pub(crate) fn parse_uuid_list(data: &[u8], off: usize, n: u32) -> (r: Option<(Vec<Uuid>, usize)>)
    requires
        off <= data@.len(),
    ensures
        match r {
            Some(p) => sp_list(data@, off as int, n as int, sp_uuid_fn()) == Some(
                (uuids_view(p.0@), p.1 as int),
            ) && p.1 <= data@.len(),
            None => sp_list(data@, off as int, n as int, sp_uuid_fn()) is None,
        },
{
    let ghost f = sp_uuid_fn();
    let mut acc: Vec<Uuid> = Vec::new();
    let mut cur = off;
    let mut i: u32 = 0;
    proof {
        assert(uuids_view(acc@) =~= Seq::<Seq<u8>>::empty());
    }
    while i < n
        invariant
            i <= n,
            off <= data@.len(),
            cur <= data@.len(),
            acc@.len() == i,
            f == sp_uuid_fn(),
            sp_list(data@, off as int, n as int, f) == (match sp_list(
                data@,
                cur as int,
                n - i,
                f,
            ) {
                None => None::<(Seq<Seq<u8>>, int)>,
                Some(p) => Some((uuids_view(acc@) + p.0, p.1)),
            }),
        decreases n - i,
    {
        let ghost acc0 = acc@;
        let ghost cur0 = cur;
        match parse_uuid16(data, cur) {
            None => {
                proof {
                    assert(sp_list(data@, cur as int, n - i, f) is None);
                }
                return None;
            },
            Some((u, o2)) => {
                proof {
                    let tail = sp_list(data@, o2 as int, n - i - 1, f);
                    assert(f(data@, cur0 as int) == sp_uuid16(data@, cur0 as int));
                    assert(sp_list(data@, cur0 as int, n - i, f) == (match tail {
                        None => None::<(Seq<Seq<u8>>, int)>,
                        Some(p) => Some((seq![u@] + p.0, p.1)),
                    }));
                    if tail is Some {
                        let (rest, end) = tail->Some_0;
                        assert(uuids_view(acc0.push(u)) =~= uuids_view(acc0).push(u@));
                        assert(uuids_view(acc0).push(u@) + rest =~= uuids_view(acc0) + (seq![u@]
                            + rest));
                    }
                }
                acc.push(u);
                cur = o2;
                i = i + 1;
            },
        }
    }
    proof {
        assert(sp_list(data@, cur as int, 0, f) == Some((Seq::<Seq<u8>>::empty(), cur as int)));
        assert(uuids_view(acc@) + Seq::<Seq<u8>>::empty() =~= uuids_view(acc@));
    }
    Some((acc, cur))
}

/// Parse `n` columns at `off`.
pub(crate) fn parse_column_list(data: &[u8], off: usize, n: u32) -> (r: Option<
    (Vec<ColumnRec>, usize),
>)
    requires
        off <= data@.len(),
    ensures
        match r {
            Some(p) => sp_list(data@, off as int, n as int, sp_column_fn()) == Some(
                (cols_view(p.0@), p.1 as int),
            ) && p.1 <= data@.len(),
            None => sp_list(data@, off as int, n as int, sp_column_fn()) is None,
        },
{
    let ghost f = sp_column_fn();
    let mut acc: Vec<ColumnRec> = Vec::new();
    let mut cur = off;
    let mut i: u32 = 0;
    proof {
        assert(cols_view(acc@) =~= Seq::<ColumnV>::empty());
    }
    while i < n
        invariant
            i <= n,
            off <= data@.len(),
            cur <= data@.len(),
            acc@.len() == i,
            f == sp_column_fn(),
            sp_list(data@, off as int, n as int, f) == (match sp_list(
                data@,
                cur as int,
                n - i,
                f,
            ) {
                None => None::<(Seq<ColumnV>, int)>,
                Some(p) => Some((cols_view(acc@) + p.0, p.1)),
            }),
        decreases n - i,
    {
        let ghost acc0 = acc@;
        let ghost cur0 = cur;
        match parse_column(data, cur) {
            None => {
                proof {
                    assert(sp_list(data@, cur as int, n - i, f) is None);
                }
                return None;
            },
            Some((c, o2)) => {
                proof {
                    let tail = sp_list(data@, o2 as int, n - i - 1, f);
                    assert(f(data@, cur0 as int) == sp_column(data@, cur0 as int));
                    assert(sp_list(data@, cur0 as int, n - i, f) == (match tail {
                        None => None::<(Seq<ColumnV>, int)>,
                        Some(p) => Some((seq![c@] + p.0, p.1)),
                    }));
                    if tail is Some {
                        let (rest, end) = tail->Some_0;
                        assert(cols_view(acc0.push(c)) =~= cols_view(acc0).push(c@));
                        assert(cols_view(acc0).push(c@) + rest =~= cols_view(acc0) + (seq![c@]
                            + rest));
                    }
                }
                acc.push(c);
                cur = o2;
                i = i + 1;
            },
        }
    }
    proof {
        assert(sp_list(data@, cur as int, 0, f) == Some((Seq::<ColumnV>::empty(), cur as int)));
        assert(cols_view(acc@) + Seq::<ColumnV>::empty() =~= cols_view(acc@));
    }
    Some((acc, cur))
}

/// Parse the whole root message at `off`.
pub(crate) fn parse_msg(data: &[u8], off: usize) -> (r: Option<(MsgRec, usize)>)
    requires
        off <= data@.len(),
    ensures
        match r {
            Some(p) => sp_msg(data@, off as int) == Some((p.0@, p.1 as int)) && p.1 <= data@.len(),
            None => sp_msg(data@, off as int) is None,
        },
{
    match parse_u32(data, off) {
        None => None,
        Some((ne, o1)) => match parse_entity_list(data, o1, ne) {
            None => None,
            Some((es, o2)) => match parse_u32(data, o2) {
                None => None,
                Some((nx, o3)) => match parse_uuid_list(data, o3, nx) {
                    None => None,
                    Some((xs, o4)) => match parse_u32(data, o4) {
                        None => None,
                        Some((nc, o5)) => match parse_column_list(data, o5, nc) {
                            None => None,
                            Some((cs, o6)) => Some(
                                (MsgRec { entities: es, external: xs, columns: cs }, o6),
                            ),
                        },
                    },
                },
            },
        },
    }
}

// ---------------------------------------------------------------------------
// Executable encoding.
// ---------------------------------------------------------------------------

/// The stored parent field for an optional parent index.
pub(crate) fn enc_parent_exec(p: &Option<u32>) -> (r: u32)
    ensures
        r == enc_parent(*p),
{
    match p {
        None => NO_PARENT,
        Some(x) => *x,
    }
}

/// Append the encoding of one entity.
pub(crate) fn put_entity(out: &mut Vec<u8>, e: &EntityRec)
    requires
        wf_entity(e@),
    ensures
        final(out)@ == old(out)@ + enc_entity(e@),
{
    match e {
        EntityRec::Local { name, parent } => {
            put_u8(out, 0);
            match name {
                None => put_u8(out, 0),
                Some(n) => {
                    put_u8(out, 1);
                    put_str(out, n.as_str());
                },
            }
            put_u32(out, enc_parent_exec(parent));
            proof {
                assert(final(out)@ =~= old(out)@ + enc_entity(e@));
            }
        },
        EntityRec::External { file, path } => {
            put_u8(out, 1);
            put_u32(out, *file);
            put_str(out, path.as_str());
            proof {
                assert(final(out)@ =~= old(out)@ + enc_entity(e@));
            }
        },
    }
}

/// Append the encoding of one column.
pub(crate) fn put_column(out: &mut Vec<u8>, c: &ColumnRec)
    requires
        wf_column(c@),
    ensures
        final(out)@ == old(out)@ + enc_column(c@),
{
    put_str(out, c.name.as_str());
    put_bytes(out, c.data.as_slice());
    proof {
        assert(final(out)@ =~= old(out)@ + enc_column(c@));
    }
}

/// Append the encodings of all entities, in order.
pub(crate) fn put_entity_list(out: &mut Vec<u8>, v: &Vec<EntityRec>)
    requires
        forall|i: int| 0 <= i < v@.len() ==> wf_entity((#[trigger] v@[i])@),
    ensures
        final(out)@ == old(out)@ + enc_list(recs_view(v@), enc_entity_fn()),
{
    let ghost out0 = out@;
    let n = v.len();
    proof {
        assert(recs_view(v@.take(0)) =~= Seq::<EntityW>::empty());
    }
    for i in 0..n
        invariant
            n == v@.len(),
            forall|k: int| 0 <= k < v@.len() ==> wf_entity((#[trigger] v@[k])@),
            out@ == out0 + enc_list(recs_view(v@.take(i as int)), enc_entity_fn()),
    {
        put_entity(out, &v[i]);
        proof {
            lemma_enc_list_push(recs_view(v@.take(i as int)), v@[i as int]@, enc_entity_fn());
            assert(recs_view(v@.take(i + 1)) =~= recs_view(v@.take(i as int)).push(v@[i as int]@));
            assert(out@ =~= out0 + enc_list(recs_view(v@.take(i + 1)), enc_entity_fn()));
        }
    }
    proof {
        assert(v@.take(n as int) =~= v@);
    }
}

/// Append the 16 raw bytes of every identifier, in order.
pub(crate) fn put_uuid_list(out: &mut Vec<u8>, v: &Vec<Uuid>)
    ensures
        final(out)@ == old(out)@ + enc_list(uuids_view(v@), enc_uuid_fn()),
{
    let ghost out0 = out@;
    let n = v.len();
    proof {
        assert(uuids_view(v@.take(0)) =~= Seq::<Seq<u8>>::empty());
    }
    for i in 0..n
        invariant
            n == v@.len(),
            out@ == out0 + enc_list(uuids_view(v@.take(i as int)), enc_uuid_fn()),
    {
        let mut b = v[i].to_bytes();
        out.append(&mut b);
        proof {
            lemma_enc_list_push(uuids_view(v@.take(i as int)), v@[i as int]@, enc_uuid_fn());
            assert(uuids_view(v@.take(i + 1)) =~= uuids_view(v@.take(i as int)).push(
                v@[i as int]@,
            ));
            assert(out@ =~= out0 + enc_list(uuids_view(v@.take(i + 1)), enc_uuid_fn()));
        }
    }
    proof {
        assert(v@.take(n as int) =~= v@);
    }
}

/// Append the encodings of all columns, in order.
pub(crate) fn put_column_list(out: &mut Vec<u8>, v: &Vec<ColumnRec>)
    requires
        forall|i: int| 0 <= i < v@.len() ==> wf_column((#[trigger] v@[i])@),
    ensures
        final(out)@ == old(out)@ + enc_list(cols_view(v@), enc_column_fn()),
{
    let ghost out0 = out@;
    let n = v.len();
    proof {
        assert(cols_view(v@.take(0)) =~= Seq::<ColumnV>::empty());
    }
    for i in 0..n
        invariant
            n == v@.len(),
            forall|k: int| 0 <= k < v@.len() ==> wf_column((#[trigger] v@[k])@),
            out@ == out0 + enc_list(cols_view(v@.take(i as int)), enc_column_fn()),
    {
        put_column(out, &v[i]);
        proof {
            lemma_enc_list_push(cols_view(v@.take(i as int)), v@[i as int]@, enc_column_fn());
            assert(cols_view(v@.take(i + 1)) =~= cols_view(v@.take(i as int)).push(v@[i as int]@));
            assert(out@ =~= out0 + enc_list(cols_view(v@.take(i + 1)), enc_column_fn()));
        }
    }
    proof {
        assert(v@.take(n as int) =~= v@);
    }
}

/// Append the encoding of the whole root message.
pub(crate) fn put_msg(out: &mut Vec<u8>, m: &MsgRec)
    requires
        wf_msg(m@),
    ensures
        final(out)@ == old(out)@ + enc_msg(m@),
{
    proof {
        assert(recs_view(m.entities@).len() == m.entities@.len());
        assert(uuids_view(m.external@).len() == m.external@.len());
        assert(cols_view(m.columns@).len() == m.columns@.len());
        assert(forall|i: int|
            0 <= i < m.entities@.len() ==> wf_entity((#[trigger] m.entities@[i])@)) by {
            assert(forall|i: int|
                0 <= i < m.entities@.len() ==> recs_view(m.entities@)[i] == (
                #[trigger] m.entities@[i])@);
        }
        assert(forall|i: int|
            0 <= i < m.columns@.len() ==> wf_column((#[trigger] m.columns@[i])@)) by {
            assert(forall|i: int|
                0 <= i < m.columns@.len() ==> cols_view(m.columns@)[i] == (
                #[trigger] m.columns@[i])@);
        }
    }
    put_u32(out, m.entities.len() as u32);
    put_entity_list(out, &m.entities);
    put_u32(out, m.external.len() as u32);
    put_uuid_list(out, &m.external);
    put_u32(out, m.columns.len() as u32);
    put_column_list(out, &m.columns);
    proof {
        assert(final(out)@ =~= old(out)@ + enc_msg(m@));
    }
}

} // verus!
