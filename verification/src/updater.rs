//! What the toolbar is told about an available update.
use vstd::prelude::*;

verus! {

/// An update found on the release server.
pub struct Found {
    pub version: String,
    pub current: String,
    pub notes: Option<String>,
    pub date: Option<String>,
}

} // verus!
