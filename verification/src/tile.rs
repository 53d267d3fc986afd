//! Tiles paint themselves onto the bar; the library names the placeholder tile
//! that shows the pipeline works end to end when no content is configured.

use vstd::prelude::*;

verus! {

/// The placeholder tile: an animated gradient pill with a two-line label and an
/// icon glyph, shown when a module has no content source.
#[derive(Clone, Copy, Debug, PartialEq, Eq)]
pub struct DemoTile;

} // verus!
