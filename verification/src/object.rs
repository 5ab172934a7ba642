//! Heap objects of the value model: text and class instances.
//!
//! In the running system both kinds live in collector-shared allocations;
//! the embedding layer owns that concern, together with the collector's
//! trace and finalize hooks.

pub mod class;
pub mod str;

use self::class::Class;
use self::str::Str;
use vstd::prelude::*;

verus! {

/// A heap object: a text value or a class instance.
#[derive(Debug)]
pub enum Object {
    String(Str),
    Class(Class),
}

} // verus!
