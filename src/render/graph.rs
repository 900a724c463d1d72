//! Settings for drawing a recipe as a picture.

use vstd::prelude::*;

verus! {

/// How a recipe graph is drawn; it has no settings yet.
pub struct RenderConfig {}

} // verus!
