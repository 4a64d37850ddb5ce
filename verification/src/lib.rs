//! Frame-reordering engine for RIFF/AVI containers.
//!
//! The engine splits a container's bytes into header, frame-data and index
//! segments, scans the frame-data segment for chunk tags to build a frame
//! table, filters the table by size thresholds, permutes or duplicates the
//! surviving frames according to a named transform, and reassembles a
//! byte-exact output container. The header and index segments are copied
//! verbatim, so the output's index is deliberately stale with respect to the
//! reordered chunk stream.

use vstd::prelude::*;

pub mod assembler;
pub mod bytes;
pub mod frame;
pub mod indexer;
pub mod opt;
pub mod pipeline;
pub mod selector;
pub mod splitter;
pub mod state;
pub mod transform;

verus! {

} // verus!
