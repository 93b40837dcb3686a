//! A file-based container for a columnar scene-graph asset format.
//!
//! A hairball file holds a flat table of named entities (local nodes with
//! optional parent references, or references into other files by UUID), a
//! deduplicated list of external file UUIDs, and an open-ended set of named
//! columns, each carrying an opaque binary payload.  The `Builder` assembles
//! such a file in memory and serializes it on `close`; the `Reader` parses
//! the bytes of an existing file back into the same structures.

use vstd::prelude::*;

pub mod builder;
pub mod codec;
pub mod container;
pub mod draw_binding;
pub mod entity;
pub mod geometry;
pub mod ident;
pub mod laws;
pub mod material;
pub mod mesh;
pub mod mesh_index;
pub mod message;
pub mod reader;

pub use crate::builder::{Builder, BuilderMapping};
pub use crate::container::{file_uuid, Error};
pub use crate::entity::{Entity, ExternalEntity, LocalEntity};
pub use crate::ident::Uuid;
pub use crate::reader::{Reader, ReaderMapping};

verus! {

/// Allocation granule: every segment starts at a multiple of this offset and
/// has a byte length that is a non-zero multiple of it.
pub const PAGE_SIZE: u32 = 4096;

/// Round a byte address up to the next multiple of the allocation granule.
pub fn align(addr: u32) -> (r: u32)
    requires
        addr + PAGE_SIZE - 1 <= u32::MAX,
    ensures
        r % PAGE_SIZE == 0,
        addr <= r < addr + PAGE_SIZE,
{
    let rem = addr % PAGE_SIZE;
    if rem == 0 {
        addr
    } else {
        addr + (PAGE_SIZE - rem)
    }
}

} // verus!
