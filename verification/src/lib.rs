//! A side-by-side git diff viewer: the data model, the line alignment of two
//! file versions, the collapsible file tree, the parsing of git's output and
//! the navigation state machine of the viewer.
use vstd::prelude::*;

pub mod text;
pub mod model;
pub mod align;
pub mod tree;
pub mod git;
pub mod controller;
pub mod view;

verus! {

} // verus!
