//! The error taxonomy of the library.

use vstd::prelude::*;

verus! {

/// Everything that can go wrong while building a dictionary or composing a
/// mosaic.
///
/// - `SourceNotFound`, `SourceIsFile`, `SourceUnreadable`: the tile source
///   could not be opened as a directory.
/// - `CorruptCache`: a cache file exists but cannot be parsed; the caller
///   falls back to a full rebuild.
/// - `DecodeFailure`: an image could not be decoded. Per tile this is
///   recorded and skipped; for the target image it aborts the run.
/// - `InconsistentTileSize`: a tile's pixel buffer does not match the run's
///   shared tile size; rejected when the dictionary is merged.
/// - `EmptyDictionary`: composition was attempted over a dictionary with no
///   tiles.
/// - `EncodeFailure`: the output image could not be written.
#[derive(Clone, Copy, Debug, PartialEq, Eq, Structural)]
pub enum MosaicError {
    SourceNotFound,
    SourceIsFile,
    SourceUnreadable,
    CorruptCache,
    DecodeFailure,
    InconsistentTileSize,
    EmptyDictionary,
    EncodeFailure,
}

} // verus!
