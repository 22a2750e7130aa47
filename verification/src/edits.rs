//! The edits of the atlas that history keeps: one entry type over every kind
//! of undoable change, so a single history orders them all.
use vstd::prelude::*;
use crate::features::FeatureUndo;
use crate::layers::RegionUndo;
use crate::terrain::HeightPatch;

verus! {

/// One undoable edit of the atlas.
#[derive(Debug)]
pub enum AtlasUndo {
    Height(HeightPatch),
    Region(RegionUndo),
    Feature(FeatureUndo),
}

} // verus!
