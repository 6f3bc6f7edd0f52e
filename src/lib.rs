//! Tools for a content-delivery client that mirrors game assets stored in a
//! git-compatible object layout: a parser for the binary index that lists the
//! assets, the object framing codec, and the decisions of the chunked
//! downloader.
use vstd::prelude::*;

pub mod git_index;
pub mod git_object;
pub mod download;
pub mod plan;
pub mod bootstrap;
pub mod applets;

verus! {

} // verus!
