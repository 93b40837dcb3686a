//! The read side: a `Reader` parses the bytes of a hairball file into the
//! entity table, the external-UUID list and the columns, and serves lookups
//! out of them.
//!
//! Lookups are corruption-tolerant: an index out of range — a bad entity
//! index, or an external reference whose file index points past the
//! external-UUID list — answers "absent" rather than an error, so that
//! iteration over partially damaged data skips bad rows instead of aborting.

use vstd::prelude::*;
use crate::codec::str_eq;
use crate::container::{read_file, sp_read_file, Error, ReadV};
use crate::entity::{opt_str_view, Entity, EntityRec, EntityW, ExternalEntity, LocalEntity};
use crate::ident::Uuid;
use crate::message::{
    cols_view, col_first_match, lemma_col_first_match_at, lemma_col_first_match_none, recs_view,
    uuids_view, ColumnRec, ColumnV, MsgV,
};

verus! {

/// Everything a `Reader` keeps of a file, in mathematical form.
pub struct ReaderV {
    pub uuid: Seq<u8>,
    pub entities: Seq<EntityW>,
    pub external: Seq<Seq<u8>>,
    pub columns: Seq<ColumnV>,
}

impl ReaderV {
    /// The root message these tables came from.
    pub open spec fn to_msg(self) -> MsgV {
        MsgV { entities: self.entities, external: self.external, columns: self.columns }
    }
}

/// Reads a hairball file from its bytes.
pub struct Reader {
    uuid: Uuid,
    entities: Vec<EntityRec>,
    external: Vec<Uuid>,
    columns: Vec<ColumnRec>,
}

impl View for Reader {
    type V = ReaderV;

    closed spec fn view(&self) -> ReaderV {
        ReaderV {
            uuid: self.uuid@,
            entities: recs_view(self.entities@),
            external: uuids_view(self.external@),
            columns: cols_view(self.columns@),
        }
    }
}

impl Reader {
    /// Parse a hairball file from its bytes.
    ///
    /// Succeeds exactly when the bytes carry the magic, a major version this
    /// library reads, an intact segment table and segments, and a well-formed
    /// root message; the reader then holds exactly what the file says.
    pub fn read(data: &[u8]) -> (r: Result<Reader, Error>)
        ensures
            match r {
                Ok(rd) => sp_read_file(data@) == Ok::<ReadV, Error>(
                    ReadV { uuid: rd@.uuid, msg: rd@.to_msg() },
                ),
                Err(e) => sp_read_file(data@) == Err::<ReadV, Error>(e),
            },
    {
        match read_file(data) {
            Err(e) => Err(e),
            Ok((uuid, m)) => Ok(
                Reader { uuid, entities: m.entities, external: m.external, columns: m.columns },
            ),
        }
    }

    /// The file's UUID.
    pub fn uuid(&self) -> (r: Uuid)
        ensures
            r@ == self@.uuid,
    {
        self.uuid
    }

    /// How many entities the file holds.
    pub fn entities_len(&self) -> (r: usize)
        ensures
            r == self@.entities.len(),
    {
        proof {
            assert(recs_view(self.entities@).len() == self.entities@.len());
        }
        self.entities.len()
    }

    /// The entity at `idx`: a local entity as stored, or an external entity
    /// with its file reference resolved to the UUID it names.  Absent when
    /// `idx` is out of range, and also when a stored external reference
    /// points past the external-UUID list.
    pub fn get_entity(&self, idx: usize) -> (r: Option<Entity<String>>)
        ensures
            idx >= self@.entities.len() ==> r is None,
            idx < self@.entities.len() ==> match self@.entities[idx as int] {
                EntityW::Local { name, parent } => match r {
                    Some(e) => e matches Entity::Local(le) && opt_str_view(le.name) == name
                        && le.parent == parent,
                    None => false,
                },
                EntityW::External { file, path } => if file < self@.external.len() {
                    match r {
                        Some(e) => e matches Entity::External(ee) && ee.file@
                            == self@.external[file as int] && ee.name@ == path,
                        None => false,
                    }
                } else {
                    r is None
                },
            },
    {
        proof {
            assert(recs_view(self.entities@).len() == self.entities@.len());
            assert(uuids_view(self.external@).len() == self.external@.len());
        }
        if idx >= self.entities.len() {
            return None;
        }
        proof {
            assert(recs_view(self.entities@)[idx as int] == self.entities@[idx as int]@);
        }
        match &self.entities[idx] {
            EntityRec::Local { name, parent } => {
                let n: Option<String> = match name {
                    Some(s) => Some(s.clone()),
                    None => None,
                };
                Some(Entity::Local(LocalEntity { name: n, parent: *parent }))
            },
            EntityRec::External { file, path } => {
                let f = *file as usize;
                if f < self.external.len() {
                    proof {
                        assert(uuids_view(self.external@)[f as int] == self.external@[f as int]@);
                    }
                    Some(
                        Entity::External(
                            ExternalEntity { file: self.external[f], name: path.clone() },
                        ),
                    )
                } else {
                    None
                }
            },
        }
    }

    /// The entity at `idx`; same as `get_entity`.
    pub fn entity(&self, idx: usize) -> (r: Option<Entity<String>>)
        ensures
            idx >= self@.entities.len() ==> r is None,
            idx < self@.entities.len() ==> match self@.entities[idx as int] {
                EntityW::Local { name, parent } => match r {
                    Some(e) => e matches Entity::Local(le) && opt_str_view(le.name) == name
                        && le.parent == parent,
                    None => false,
                },
                EntityW::External { file, path } => if file < self@.external.len() {
                    match r {
                        Some(e) => e matches Entity::External(ee) && ee.file@
                            == self@.external[file as int] && ee.name@ == path,
                        None => false,
                    }
                } else {
                    r is None
                },
            },
    {
        self.get_entity(idx)
    }

    /// How many external file references the file holds.
    pub fn external_len(&self) -> (r: usize)
        ensures
            r == self@.external.len(),
    {
        proof {
            assert(uuids_view(self.external@).len() == self.external@.len());
        }
        self.external.len()
    }

    /// The external UUID at `idx`; absent exactly when `idx` is out of range.
    pub fn external(&self, idx: usize) -> (r: Option<Uuid>)
        ensures
            match r {
                Some(u) => idx < self@.external.len() && u@ == self@.external[idx as int],
                None => idx >= self@.external.len(),
            },
    {
        proof {
            assert(uuids_view(self.external@).len() == self.external@.len());
        }
        if idx < self.external.len() {
            proof {
                assert(uuids_view(self.external@)[idx as int] == self.external@[idx as int]@);
            }
            Some(self.external[idx])
        } else {
            None
        }
    }

    /// The payload of the first column with the given name, or absent when
    /// no column has it.
    pub fn column(&self, name: &str) -> (r: Option<&Vec<u8>>)
        ensures
            match col_first_match(self@.columns, name@) {
                Some(j) => r matches Some(d) && d@ == self@.columns[j].data,
                None => r is None,
            },
    {
        let ghost cols = cols_view(self.columns@);
        proof {
            assert(cols.len() == self.columns@.len());
        }
        let n = self.columns.len();
        #[verifier::loop_isolation(false)]
        for j in 0..n
            invariant
                forall|k: int| 0 <= k < j ==> (#[trigger] cols[k]).name != name@,
        {
            proof {
                assert(cols[j as int] == self.columns@[j as int]@);
            }
            if str_eq(self.columns[j].name.as_str(), name) {
                proof {
                    lemma_col_first_match_at(cols, name@, j as int);
                }
                return Some(&self.columns[j].data);
            }
        }
        proof {
            lemma_col_first_match_none(cols, name@);
        }
        None
    }

    /// Build a mapping that projects each entity index through `f`, so that
    /// column readers can hand out the caller's own entity values.
    pub fn into_mapping<E, F: Fn(usize) -> E>(&self, f: F) -> (r: ReaderMapping<'_, E>)
        requires
            forall|i: usize| i < self@.entities.len() ==> call_requires(f, (i,)),
        ensures
            r.reader_spec() == self,
            r.entities_spec().len() == self@.entities.len(),
            forall|i: int|
                0 <= i < r.entities_spec().len() ==> call_ensures(
                    f,
                    (i as usize,),
                    #[trigger] r.entities_spec()[i],
                ),
    {
        let n = self.entities_len();
        let mut e: Vec<E> = Vec::new();
        #[verifier::loop_isolation(false)]
        for i in 0..n
            invariant
                e@.len() == i,
                forall|k: int|
                    0 <= k < i ==> call_ensures(f, (k as usize,), #[trigger] e@[k]),
        {
            let v = f(i);
            e.push(v);
        }
        ReaderMapping { reader: self, entities: e }
    }
}

/// A reader together with one caller-supplied value per entity index.
pub struct ReaderMapping<'a, E> {
    reader: &'a Reader,
    entities: Vec<E>,
}

impl<'a, E> ReaderMapping<'a, E> {
    /// The underlying reader.
    pub closed spec fn reader_spec(&self) -> &'a Reader {
        self.reader
    }

    /// The projected entity values, by entity index.
    pub closed spec fn entities_spec(&self) -> Seq<E> {
        self.entities@
    }

    /// The underlying reader.
    pub fn reader(&self) -> (r: &'a Reader)
        ensures
            r == self.reader_spec(),
    {
        self.reader
    }

    /// The projected value for entity `i`; absent exactly when `i` is out of
    /// range.
    pub fn entity(&self, i: usize) -> (r: Option<&E>)
        ensures
            match r {
                Some(e) => i < self.entities_spec().len() && *e == self.entities_spec()[i as int],
                None => i >= self.entities_spec().len(),
            },
    {
        if i < self.entities.len() {
            Some(&self.entities[i])
        } else {
            None
        }
    }

    /// How many projected values there are: one per entity.
    pub fn len(&self) -> (r: usize)
        ensures
            r == self.entities_spec().len(),
    {
        self.entities.len()
    }
}

} // verus!
