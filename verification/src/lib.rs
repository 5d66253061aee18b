//! The document core of a JSON editor: opening documents of any size (as a
//! tree, or as source text read lazily through a structural scan), recovery
//! of JSON dialects, windows over the children of large collections, saving,
//! and diagnosis of broken JSON.
use vstd::prelude::*;

pub mod diagnose;
pub mod document;
pub mod format;
pub mod grid;
pub mod json;
pub mod lookup;
pub mod menu;
pub mod rows;
pub mod scan;
pub mod search;
pub mod text;
pub mod tree;
pub mod window;

verus! {

} // verus!
