//! The guarantees of the format, stated over the mathematical models and
//! proved once and for all: whatever a `Builder` holds when it is closed is
//! exactly what a `Reader` finds in the resulting bytes.

use vstd::prelude::*;
use crate::builder::BuilderV;
use crate::container::{
    file_bytes, lemma_read_of_file_bytes, sp_read_file, Error, ReadV, MAX_MESSAGE_BYTES,
};
use crate::entity::EntityW;
use crate::message::{
    col_first_match, enc_msg, lemma_col_first_match_at, lemma_col_first_match_none_inv, ColumnV,
};

verus! {

/// Writing a hairball and reading the bytes back yields exactly the written
/// file UUID, entity table, external-UUID list and columns: reading inverts
/// writing.
pub proof fn lemma_write_read_round_trip(v: BuilderV)
    requires
        v.wf(),
        enc_msg(v.to_msg()).len() <= MAX_MESSAGE_BYTES,
    ensures
        sp_read_file(file_bytes(v.uuid, v.to_msg())) == Ok::<ReadV, Error>(
            ReadV { uuid: v.uuid, msg: v.to_msg() },
        ),
{
    lemma_read_of_file_bytes(v.uuid, v.to_msg());
}

/// A file written from a builder opens, and yields the same sequence of
/// entity descriptors in the same order.
pub proof fn lemma_written_file_entities(v: BuilderV)
    requires
        v.wf(),
        enc_msg(v.to_msg()).len() <= MAX_MESSAGE_BYTES,
    ensures
        match sp_read_file(file_bytes(v.uuid, v.to_msg())) {
            Ok(rv) => rv.msg.entities == v.entities,
            Err(_) => false,
        },
{
    lemma_write_read_round_trip(v);
}

/// A file written from a builder preserves the builder's file UUID.
pub proof fn lemma_written_file_uuid(v: BuilderV)
    requires
        v.wf(),
        enc_msg(v.to_msg()).len() <= MAX_MESSAGE_BYTES,
    ensures
        match sp_read_file(file_bytes(v.uuid, v.to_msg())) {
            Ok(rv) => rv.uuid == v.uuid,
            Err(_) => false,
        },
{
    lemma_write_read_round_trip(v);
}

/// In every written file, a local entity's parent reference points to an
/// earlier entity; otherwise it is absent.
pub proof fn lemma_written_file_parent_order(v: BuilderV)
    requires
        v.wf(),
        enc_msg(v.to_msg()).len() <= MAX_MESSAGE_BYTES,
    ensures
        match sp_read_file(file_bytes(v.uuid, v.to_msg())) {
            Ok(rv) => forall|i: int|
                0 <= i < rv.msg.entities.len() ==> match #[trigger] rv.msg.entities[i] {
                    EntityW::Local { name, parent } => match parent {
                        Some(p) => p < i,
                        None => true,
                    },
                    EntityW::External { .. } => true,
                },
            Err(_) => false,
        },
{
    lemma_write_read_round_trip(v);
}

/// In every written file, the external-UUID list contains no duplicates.
pub proof fn lemma_written_file_external_unique(v: BuilderV)
    requires
        v.wf(),
        enc_msg(v.to_msg()).len() <= MAX_MESSAGE_BYTES,
    ensures
        match sp_read_file(file_bytes(v.uuid, v.to_msg())) {
            Ok(rv) => forall|i: int, j: int|
                0 <= i < j < rv.msg.external.len() ==> rv.msg.external[i] != rv.msg.external[j],
            Err(_) => false,
        },
{
    lemma_write_read_round_trip(v);
}

/// For every column the builder holds, looking the name up in the written
/// file finds the same column with bit-exact payload bytes.
pub proof fn lemma_written_file_column_payload(v: BuilderV, name: Seq<char>)
    requires
        v.wf(),
        enc_msg(v.to_msg()).len() <= MAX_MESSAGE_BYTES,
    ensures
        match sp_read_file(file_bytes(v.uuid, v.to_msg())) {
            Ok(rv) => col_first_match(rv.msg.columns, name) == col_first_match(v.columns, name)
                && (col_first_match(v.columns, name) matches Some(j) ==> rv.msg.columns[j]
                == v.columns[j]),
            Err(_) => false,
        },
{
    lemma_write_read_round_trip(v);
}


/// Find-or-create is idempotent: when a name has no column yet, creating an
/// empty one at the end of the list makes that very column the first match,
/// so a second lookup of the same name returns the same column.
pub proof fn lemma_column_find_or_create(cs: Seq<ColumnV>, name: Seq<char>)
    requires
        col_first_match(cs, name) is None,
    ensures
        col_first_match(cs.push(ColumnV { name, data: Seq::empty() }), name) == Some(
            cs.len() as int,
        ),
{
    lemma_col_first_match_none_inv(cs, name);
    let pushed = cs.push(ColumnV { name, data: Seq::empty() });
    assert(forall|k: int| 0 <= k < cs.len() ==> (#[trigger] pushed[k]).name != name) by {
        assert(forall|k: int| 0 <= k < cs.len() ==> pushed[k] == #[trigger] cs[k]);
    }
    lemma_col_first_match_at(pushed, name, cs.len() as int);
}

} // verus!
