//! Derived-asset pipeline and content index.
//!
//! The library ingests raw file bytes, derives new artifacts from decoded
//! raster images (thumbnails, compressed copies, color-key mattes, packed and
//! split sprite sheets), reconciles a relational folder index against folders
//! discovered on disk, and ranks assets by embedding similarity.

use vstd::prelude::*;

pub mod descriptor;
pub mod embedding;
pub mod folders;
pub mod media;
pub mod raster;
pub mod spritesheet;
pub mod store;
pub mod tagging;
pub mod strings;

verus! {

/// The error taxonomy of the library.
#[derive(Debug, Clone, PartialEq, Eq)]
pub enum LibError {
    /// A referenced library, asset or tag does not exist.
    NotFound,
    /// An argument violates the input rules (empty image list, bad folder
    /// name, zero rows or columns, ...).
    InvalidInput,
    /// A filesystem read or write failed.
    IoFailure,
    /// Bytes that should decode as an image did not.
    DecodeFailure,
    /// The AI collaborator failed.
    ProviderError,
}

} // verus!
