//! How a highlighted cell set is drawn: edge lines, filled faces, or both.

use vstd::prelude::*;

verus! {

/// The rendering mode for generated geometry.
#[derive(Clone, Copy, PartialEq, Eq, Structural, Debug)]
pub enum RenderStyle {
    Lines,
    Faces,
    Both,
}

impl RenderStyle {
    /// The style selected by a numeric index: 1 is faces, 2 is both, and
    /// every other value is lines.
    pub fn from_index(idx: i32) -> (r: RenderStyle)
        ensures
            idx == 1 ==> r == RenderStyle::Faces,
            idx == 2 ==> r == RenderStyle::Both,
            idx != 1 && idx != 2 ==> r == RenderStyle::Lines,
    {
        match idx {
            1 => RenderStyle::Faces,
            2 => RenderStyle::Both,
            _ => RenderStyle::Lines,
        }
    }
}

} // verus!
