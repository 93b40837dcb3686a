//! The write side: a `Builder` accumulates entities, external-file UUIDs and
//! named columns in memory and serializes the whole file on `close`.

use vstd::prelude::*;
use vstd::utf8::encode_utf8;
use crate::codec::str_eq;
use crate::container::{build_file, file_bytes, MAX_MESSAGE_BYTES};
use crate::entity::{opt_str_view, EntityRec, EntityW, ExternalEntity, LocalEntity};
use crate::ident::Uuid;
use crate::message::{
    cols_view, col_first_match, enc_msg, lemma_col_first_match_at, lemma_col_first_match_none,
    lemma_uuid_first_match_at, lemma_uuid_first_match_none, recs_view, uuid_first_match,
    uuids_view, wf_msg, ColumnRec, ColumnV, MsgRec, MsgV,
};

verus! {

/// Everything a `Builder` holds, in mathematical form.
pub struct BuilderV {
    pub uuid: Seq<u8>,
    pub entities: Seq<EntityW>,
    pub external: Seq<Seq<u8>>,
    pub columns: Seq<ColumnV>,
}

/// Every parent reference points to an earlier entity and every external
/// reference points into the external-UUID list.
pub open spec fn entities_wf(entities: Seq<EntityW>, n_external: int) -> bool {
    forall|i: int|
        0 <= i < entities.len() ==> match #[trigger] entities[i] {
            EntityW::Local { name, parent } => match parent {
                Some(p) => p < i,
                None => true,
            },
            EntityW::External { file, path } => file < n_external,
        }
}

impl BuilderV {
    /// The root message this state serializes to.
    pub open spec fn to_msg(self) -> MsgV {
        MsgV { entities: self.entities, external: self.external, columns: self.columns }
    }

    /// The invariant every `Builder` maintains: sizes fit their fields,
    /// parent references point backwards, external references are in range,
    /// the external-UUID list has no duplicates, and column names are unique.
    pub open spec fn wf(self) -> bool {
        &&& self.uuid.len() == 16
        &&& wf_msg(self.to_msg())
        &&& entities_wf(self.entities, self.external.len() as int)
        &&& forall|i: int, j: int|
            0 <= i < j < self.external.len() ==> self.external[i] != self.external[j]
        &&& forall|i: int, j: int|
            0 <= i < j < self.columns.len() ==> (#[trigger] self.columns[i]).name != (
            #[trigger] self.columns[j]).name
    }
}

/// Constructs a hairball file in memory.
pub struct Builder {
    uuid: Uuid,
    entities: Vec<EntityRec>,
    external: Vec<Uuid>,
    columns: Vec<ColumnRec>,
}

impl View for Builder {
    type V = BuilderV;

    closed spec fn view(&self) -> BuilderV {
        BuilderV {
            uuid: self.uuid@,
            entities: recs_view(self.entities@),
            external: uuids_view(self.external@),
            columns: cols_view(self.columns@),
        }
    }
}

impl Builder {
    /// Create an empty builder with a freshly generated file UUID.
    pub fn new() -> (r: Builder)
        ensures
            r@.wf(),
            r@.entities.len() == 0,
            r@.external.len() == 0,
            r@.columns.len() == 0,
    {
        Builder::new_with_uuid(Uuid::new_v4())
    }

    /// Create an empty builder with the given file UUID.
    pub fn new_with_uuid(uuid: Uuid) -> (r: Builder)
        ensures
            r@.wf(),
            r@.uuid == uuid@,
            r@.entities.len() == 0,
            r@.external.len() == 0,
            r@.columns.len() == 0,
    {
        let r = Builder { uuid, entities: Vec::new(), external: Vec::new(), columns: Vec::new() };
        proof {
            crate::ident::lemma_uuid_view_len(uuid);
            assert(recs_view(r.entities@) =~= Seq::<EntityW>::empty());
            assert(uuids_view(r.external@) =~= Seq::<Seq<u8>>::empty());
            assert(cols_view(r.columns@) =~= Seq::<ColumnV>::empty());
        }
        r
    }

    /// The file UUID the builder will write.
    pub fn uuid(&self) -> (r: Uuid)
        ensures
            r@ == self@.uuid,
    {
        self.uuid
    }

    /// Replace the file UUID.
    pub fn set_uuid(&mut self, uuid: Uuid)
        requires
            old(self)@.wf(),
        ensures
            final(self)@ == (BuilderV { uuid: uuid@, ..old(self)@ }),
            final(self)@.wf(),
    {
        proof {
            crate::ident::lemma_uuid_view_len(uuid);
        }
        self.uuid = uuid;
    }

    /// Append a local entity; the result is its index.
    ///
    /// A parent reference may only point to an already added entity: that is
    /// the add-order contract, and it is what keeps the table free of cycles.
    pub fn add_entity(&mut self, entry: LocalEntity<String>) -> (r: u32)
        requires
            old(self)@.wf(),
            old(self)@.entities.len() < u32::MAX,
            entry.parent matches Some(p) ==> p < old(self)@.entities.len(),
            entry.name matches Some(n) ==> encode_utf8(n@).len() <= u32::MAX,
        ensures
            r == old(self)@.entities.len(),
            final(self)@ == (BuilderV {
                entities: old(self)@.entities.push(
                    EntityW::Local { name: opt_str_view(entry.name), parent: entry.parent },
                ),
                ..old(self)@
            }),
            final(self)@.wf(),
    {
        let r = self.entities.len() as u32;
        let ghost old_recs = self.entities@;
        self.entities.push(EntityRec::Local { name: entry.name, parent: entry.parent });
        proof {
            assert(recs_view(self.entities@) =~= recs_view(old_recs).push(
                EntityW::Local { name: opt_str_view(entry.name), parent: entry.parent },
            ));
        }
        r
    }

    /// Append an external entity; the result is its index.
    ///
    /// The referenced file UUID is interned: its first use appends it to the
    /// external-UUID list, later uses share that entry.
    pub fn add_external_entity(&mut self, entry: ExternalEntity<String>) -> (r: u32)
        requires
            old(self)@.wf(),
            old(self)@.entities.len() < u32::MAX,
            old(self)@.external.len() < u32::MAX,
            encode_utf8(entry.name@).len() <= u32::MAX,
        ensures
            r == old(self)@.entities.len(),
            final(self)@.uuid == old(self)@.uuid,
            final(self)@.columns == old(self)@.columns,
            match uuid_first_match(old(self)@.external, entry.file@) {
                Some(j) => final(self)@.external == old(self)@.external && final(self)@.entities
                    == old(self)@.entities.push(
                    EntityW::External { file: j as u32, path: entry.name@ },
                ),
                None => final(self)@.external == old(self)@.external.push(entry.file@)
                    && final(self)@.entities == old(self)@.entities.push(
                    EntityW::External {
                        file: old(self)@.external.len() as u32,
                        path: entry.name@,
                    },
                ),
            },
            final(self)@.wf(),
    {
        let r = self.entities.len() as u32;
        let ghost old_recs = self.entities@;
        let ghost old_ext = uuids_view(self.external@);
        proof {
            assert(old_ext.len() == self.external@.len());
            assert(recs_view(self.entities@).len() == self.entities@.len());
        }
        let n = self.external.len();
        let mut file_idx: u32 = n as u32;
        let mut found = false;
        #[verifier::loop_isolation(false)]
        for j in 0..n
            invariant
                n == self.external@.len(),
                old_ext == uuids_view(self.external@),
                n < u32::MAX,
                !found ==> file_idx == n && forall|k: int|
                    0 <= k < j ==> #[trigger] old_ext[k] != entry.file@,
                found ==> {
                    &&& 0 <= file_idx < j
                    &&& old_ext[file_idx as int] == entry.file@
                    &&& forall|k: int| 0 <= k < file_idx ==> #[trigger] old_ext[k] != entry.file@
                },
        {
            proof {
                assert(old_ext[j as int] == self.external@[j as int]@);
            }
            if !found && self.external[j].same(&entry.file) {
                found = true;
                file_idx = j as u32;
            }
        }
        proof {
            if found {
                lemma_uuid_first_match_at(old_ext, entry.file@, file_idx as int);
            } else {
                lemma_uuid_first_match_none(old_ext, entry.file@);
            }
        }
        if !found {
            let ghost old_ids = self.external@;
            self.external.push(entry.file);
            proof {
                assert(uuids_view(self.external@) =~= uuids_view(old_ids).push(entry.file@));
            }
        }
        self.entities.push(EntityRec::External { file: file_idx, path: entry.name });
        proof {
            assert(recs_view(self.entities@) =~= recs_view(old_recs).push(
                EntityW::External { file: file_idx, path: entry.name@ },
            ));
            crate::ident::lemma_uuid_view_len(entry.file);
            assert(final(self)@.wf()) by {
                let newv = final(self)@;
                let oldv = old(self)@;
                assert(forall|i: int|
                    0 <= i < oldv.entities.len() ==> newv.entities[i] == oldv.entities[i]);
                assert(forall|i: int|
                    0 <= i < oldv.external.len() ==> newv.external[i] == oldv.external[i]);
                assert(newv.entities[oldv.entities.len() as int] == (EntityW::External {
                    file: file_idx,
                    path: entry.name@,
                }));
                assert(file_idx < newv.external.len());
            }
        }
        r
    }

    /// Find the column with the given name, creating an empty one at the end
    /// of the list if none exists yet; the result is its index.
    ///
    /// Successive calls with the same name return the same index.
    pub fn column(&mut self, name: &str) -> (idx: usize)
        requires
            old(self)@.wf(),
            old(self)@.columns.len() < u32::MAX,
            encode_utf8(name@).len() <= u32::MAX,
        ensures
            final(self)@.uuid == old(self)@.uuid,
            final(self)@.entities == old(self)@.entities,
            final(self)@.external == old(self)@.external,
            match col_first_match(old(self)@.columns, name@) {
                Some(j) => idx == j && final(self)@.columns == old(self)@.columns,
                None => idx == old(self)@.columns.len() && final(self)@.columns == old(self)@
                    .columns.push(ColumnV { name: name@, data: Seq::empty() }),
            },
            final(self)@.columns[idx as int].name == name@,
            idx < final(self)@.columns.len(),
            final(self)@.wf(),
    {
        let ghost old_cols = cols_view(self.columns@);
        proof {
            assert(old_cols.len() == self.columns@.len());
        }
        let n = self.columns.len();
        #[verifier::loop_isolation(false)]
        for j in 0..n
            invariant
                n == self.columns@.len(),
                old_cols == cols_view(self.columns@),
                forall|k: int| 0 <= k < j ==> (#[trigger] old_cols[k]).name != name@,
        {
            proof {
                assert(old_cols[j as int] == self.columns@[j as int]@);
            }
            if str_eq(self.columns[j].name.as_str(), name) {
                proof {
                    lemma_col_first_match_at(old_cols, name@, j as int);
                }
                return j;
            }
        }
        proof {
            lemma_col_first_match_none(old_cols, name@);
        }
        let ghost old_recs = self.columns@;
        self.columns.push(ColumnRec { name: name.to_owned(), data: Vec::new() });
        proof {
            assert(cols_view(self.columns@) =~= cols_view(old_recs).push(
                ColumnV { name: name@, data: Seq::empty() },
            ));
            assert(final(self)@.wf()) by {
                let newv = final(self)@;
                let oldv = old(self)@;
                assert(forall|i: int|
                    0 <= i < oldv.columns.len() ==> newv.columns[i] == oldv.columns[i]);
            }
        }
        n
    }

    /// Replace the payload of the column at `idx`.
    pub fn set_column_data(&mut self, idx: usize, data: Vec<u8>)
        requires
            old(self)@.wf(),
            idx < old(self)@.columns.len(),
            data@.len() <= u32::MAX,
        ensures
            final(self)@ == (BuilderV {
                columns: old(self)@.columns.update(
                    idx as int,
                    ColumnV { name: old(self)@.columns[idx as int].name, data: data@ },
                ),
                ..old(self)@
            }),
            final(self)@.wf(),
    {
        let ghost old_recs = self.columns@;
        let name = self.columns[idx].name.clone();
        self.columns.set(idx, ColumnRec { name, data });
        proof {
            assert(cols_view(self.columns@) =~= cols_view(old_recs).update(
                idx as int,
                ColumnV { name: old_recs[idx as int].name@, data: data@ },
            ));
            assert(final(self)@.wf()) by {
                let newv = final(self)@;
                let oldv = old(self)@;
                assert(forall|i: int|
                    0 <= i < oldv.columns.len() && i != idx ==> newv.columns[i]
                        == oldv.columns[i]);
            }
        }
    }

    /// Borrow the payload of the column at `idx`.
    pub fn column_data(&self, idx: usize) -> (r: &Vec<u8>)
        requires
            idx < self@.columns.len(),
        ensures
            r@ == self@.columns[idx as int].data,
    {
        &self.columns[idx].data
    }

    /// Serialize: the result is the byte image of the finished hairball file.
    ///
    /// The encoded root message must stay under `MAX_MESSAGE_BYTES` so that
    /// every offset fits its header field; that is the one capacity limit of
    /// the format as written here.
    pub fn close(self) -> (r: Vec<u8>)
        requires
            self@.wf(),
            enc_msg(self@.to_msg()).len() <= MAX_MESSAGE_BYTES,
        ensures
            r@ == file_bytes(self@.uuid, self@.to_msg()),
    {
        let Builder { uuid, entities, external, columns } = self;
        let m = MsgRec { entities, external, columns };
        build_file(&uuid, &m)
    }
}

/// Index of the first entry with the given key, if any.
pub open spec fn key_first_match(s: Seq<(u64, u32)>, k: u64) -> Option<int>
    decreases s.len(),
{
    if s.len() == 0 {
        None
    } else if s[0].0 == k {
        Some(0int)
    } else {
        match key_first_match(s.drop_first(), k) {
            None => None,
            Some(j) => Some(j + 1),
        }
    }
}

/// If the first `i` entries miss and entry `i` hits, the first match is `i`.
pub proof fn lemma_key_first_match_at(s: Seq<(u64, u32)>, k: u64, i: int)
    requires
        0 <= i < s.len(),
        s[i].0 == k,
        forall|j: int| 0 <= j < i ==> (#[trigger] s[j]).0 != k,
    ensures
        key_first_match(s, k) == Some(i),
    decreases i,
{
    if i == 0 {
    } else {
        assert(s.drop_first()[i - 1] == s[i]);
        assert(forall|j: int| 0 <= j < i - 1 ==> (#[trigger] s.drop_first()[j]).0 != k) by {
            assert(forall|j: int| 0 <= j < i - 1 ==> s.drop_first()[j] == #[trigger] s[j + 1]);
        }
        lemma_key_first_match_at(s.drop_first(), k, i - 1);
    }
}

/// If no entry has the key, there is no match.
pub proof fn lemma_key_first_match_none(s: Seq<(u64, u32)>, k: u64)
    requires
        forall|j: int| 0 <= j < s.len() ==> (#[trigger] s[j]).0 != k,
    ensures
        key_first_match(s, k) is None,
    decreases s.len(),
{
    if s.len() > 0 {
        assert(forall|j: int| 0 <= j < s.len() - 1 ==> (#[trigger] s.drop_first()[j]).0 != k) by {
            assert(forall|j: int| 0 <= j < s.len() - 1 ==> s.drop_first()[j] == #[trigger] s[j + 1]);
        }
        lemma_key_first_match_none(s.drop_first(), k);
    }
}

/// Deduplicates entities by a caller-chosen integer key while building: each
/// key gets one entity, added on its first use and shared afterwards.
pub struct BuilderMapping {
    entries: Vec<(u64, u32)>,
}

impl BuilderMapping {
    /// The key-to-index entries, in insertion order.
    pub closed spec fn entries_spec(&self) -> Seq<(u64, u32)> {
        self.entries@
    }

    /// An empty mapping.
    pub fn new() -> (r: BuilderMapping)
        ensures
            r.entries_spec().len() == 0,
    {
        BuilderMapping { entries: Vec::new() }
    }

    /// The entity index recorded for the key, if any.
    pub fn entity(&self, e: u64) -> (r: Option<u32>)
        ensures
            match key_first_match(self.entries_spec(), e) {
                Some(j) => r == Some(self.entries_spec()[j].1),
                None => r is None,
            },
    {
        let n = self.entries.len();
        #[verifier::loop_isolation(false)]
        for j in 0..n
            invariant
                n == self.entries@.len(),
                forall|k: int| 0 <= k < j ==> (#[trigger] self.entries@[k]).0 != e,
        {
            if self.entries[j].0 == e {
                proof {
                    lemma_key_first_match_at(self.entries@, e, j as int);
                }
                return Some(self.entries[j].1);
            }
        }
        proof {
            lemma_key_first_match_none(self.entries@, e);
        }
        None
    }

    /// The entity index for the key: the recorded one when the key was seen
    /// before, else the index of `local`, freshly added to the builder and
    /// recorded under the key.
    pub fn add_entity(&mut self, b: &mut Builder, e: u64, local: LocalEntity<String>) -> (r: u32)
        requires
            old(b)@.wf(),
            old(b)@.entities.len() < u32::MAX,
            local.parent matches Some(p) ==> p < old(b)@.entities.len(),
            local.name matches Some(n) ==> encode_utf8(n@).len() <= u32::MAX,
        ensures
            final(b)@.wf(),
            match key_first_match(old(self).entries_spec(), e) {
                Some(j) => r == old(self).entries_spec()[j].1 && final(b)@ == old(b)@
                    && final(self).entries_spec() == old(self).entries_spec(),
                None => r == old(b)@.entities.len() && final(b)@ == (BuilderV {
                    entities: old(b)@.entities.push(
                        EntityW::Local { name: opt_str_view(local.name), parent: local.parent },
                    ),
                    ..old(b)@
                }) && final(self).entries_spec() == old(self).entries_spec().push((e, r)),
            },
    {
        match self.entity(e) {
            Some(idx) => idx,
            None => {
                let idx = b.add_entity(local);
                self.entries.push((e, idx));
                idx
            },
        }
    }
}

} // verus!
