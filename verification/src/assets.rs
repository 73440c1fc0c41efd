//! Assets that a recipe refers to: lookup tables, masks, drawings, layers.
use vstd::prelude::*;

use crate::error::{AtxError, Fault};
use crate::text::cat3;

verus! {

/// Finds the bytes of the assets that a recipe refers to. Callers bring their own.
pub trait AssetResolver {
    /// The bytes of a revision, or an error where there is none.
    fn read_revision(&self, revision_id: &str) -> (r: Result<Vec<u8>, AtxError>);
}

/// Finds no asset at all.
pub struct NoAssets;

/// The error for an asset where none can be found.
pub open spec fn no_assets_fault(revision_id: Seq<char>) -> Fault {
    Fault::InvalidRecipe(
        "this recipe references asset "@ + revision_id
            + ", but no asset resolver is available              in this context"@,
    )
}

impl AssetResolver for NoAssets {
    fn read_revision(&self, revision_id: &str) -> (r: Result<Vec<u8>, AtxError>)
        ensures
            r matches Err(e) && e@ == no_assets_fault(revision_id@),
    {
        Err(
            AtxError::InvalidRecipe(
                cat3(
                    "this recipe references asset ",
                    revision_id,
                    ", but no asset resolver is available              in this context",
                ),
            ),
        )
    }
}

} // verus!
