//! Entities of the scene graph: local nodes with an optional name and an
//! optional parent reference, and external nodes that point into another
//! hairball file by UUID.

use vstd::prelude::*;
use crate::ident::Uuid;

verus! {

/// The sentinel stored on disk for "no parent".
pub const NO_PARENT: u32 = 0xFFFF_FFFF;

/// A local entity: an optional name and an optional parent index.
#[derive(Clone, Debug)]
pub struct LocalEntity<T> {
    pub name: Option<T>,
    pub parent: Option<u32>,
}

impl<T> LocalEntity<T> {
    /// Create a new entity with the supplied name.
    pub fn named(name: T) -> (r: LocalEntity<T>)
        ensures
            r.name == Some(name),
            r.parent is None,
    {
        LocalEntity { name: Some(name), parent: None }
    }

    /// Create an anonymous entity.
    pub fn anonymous() -> (r: LocalEntity<T>)
        ensures
            r.name is None,
            r.parent is None,
    {
        LocalEntity { name: None, parent: None }
    }

    /// Set a parent for this entity.
    pub fn parent(self, parent: u32) -> (r: LocalEntity<T>)
        ensures
            r.name == self.name,
            r.parent == Some(parent),
    {
        LocalEntity { parent: Some(parent), name: self.name }
    }
}

/// An external entity: a reference to an entity of another file, named by
/// that file's UUID, together with a path inside it.
#[derive(Clone, Debug)]
pub struct ExternalEntity<T> {
    pub file: Uuid,
    pub name: T,
}

impl<T> ExternalEntity<T> {
    /// Create an external entity referring into the file named `file`.
    pub fn new(file: Uuid, name: T) -> (r: ExternalEntity<T>)
        ensures
            r.file == file,
            r.name == name,
    {
        ExternalEntity { file, name }
    }
}

/// An entity of the table: local or external.
#[derive(Clone, Debug)]
pub enum Entity<T> {
    Local(LocalEntity<T>),
    External(ExternalEntity<T>),
}

impl<T> Entity<T> {
    /// The entity's name: a local entity's optional name, or an external
    /// entity's path.
    pub fn name(&self) -> (r: Option<&T>)
        ensures
            r == match self {
                Entity::Local(e) => match e.name {
                    Some(_) => Some(&self->Local_0.name->0),
                    None => None::<&T>,
                },
                Entity::External(e) => Some(&self->External_0.name),
            },
    {
        match self {
            Entity::Local(e) => match &e.name {
                Some(n) => Some(n),
                None => None,
            },
            Entity::External(e) => Some(&e.name),
        }
    }

    /// The parent index: only a local entity can have one.
    pub fn parent(&self) -> (r: Option<u32>)
        ensures
            r == match self {
                Entity::Local(e) => e.parent,
                Entity::External(_) => None::<u32>,
            },
    {
        match self {
            Entity::Local(e) => e.parent,
            Entity::External(_) => None,
        }
    }

    /// The UUID of the file an external entity points into; absent for a
    /// local entity.
    pub fn file(&self) -> (r: Option<&Uuid>)
        ensures
            r == match self {
                Entity::Local(_) => None::<&Uuid>,
                Entity::External(e) => Some(&self->External_0.file),
            },
    {
        match self {
            Entity::Local(_) => None,
            Entity::External(e) => Some(&e.file),
        }
    }
}

/// The character-sequence view of an optional owned string.
pub open spec fn opt_str_view(n: Option<String>) -> Option<Seq<char>> {
    match n {
        Some(s) => Some(s@),
        None => None,
    }
}

/// An entity as it stands in the file: an external entity refers to its
/// file by index into the deduplicated external-UUID list.
pub enum EntityW {
    Local { name: Option<Seq<char>>, parent: Option<u32> },
    External { file: u32, path: Seq<char> },
}

/// An entity as the `Builder` and `Reader` hold it internally, mirroring
/// the wire form.
pub(crate) enum EntityRec {
    Local { name: Option<String>, parent: Option<u32> },
    External { file: u32, path: String },
}

impl View for EntityRec {
    type V = EntityW;

    open(crate) spec fn view(&self) -> EntityW {
        match self {
            EntityRec::Local { name, parent } => EntityW::Local {
                name: match name {
                    Some(n) => Some(n@),
                    None => None,
                },
                parent: *parent,
            },
            EntityRec::External { file, path } => EntityW::External { file: *file, path: path@ },
        }
    }
}

} // verus!
