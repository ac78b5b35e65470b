//! Identifiers of loaded assets.
use vstd::prelude::*;

verus! {

/// The identifier under which a loaded asset is found.
#[derive(Clone, Copy, Debug, PartialEq, Eq, Structural, Hash)]
pub struct AssetId(pub u64);

/// The assets the puzzle game draws with.
#[derive(Clone, Debug)]
pub struct Handles {
    pub font: AssetId,
    pub tiles: Vec<AssetId>,
    pub tiles_atlas: AssetId,
    pub base: AssetId,
    pub selector: AssetId,
}

} // verus!
