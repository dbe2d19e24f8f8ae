//! The guide lines shown while an object is dragged into alignment. Which
//! edge snaps to which target is measured by the application on the
//! scalar coordinates; this module holds what it reports.

use vstd::prelude::*;

verus! {

#[derive(Clone, Copy, Debug, PartialEq, Eq, Structural)]
pub enum GuideOrientation {
    Vertical,
    Horizontal,
}

/// One temporary guide line: `position` is the coordinate along its own
/// axis (x for a vertical line, y for a horizontal one); `start` and `end`
/// span the cross axis, so the line is drawn only across the objects
/// involved.
#[derive(Clone, Copy, Debug)]
pub struct Guide<F> {
    pub orientation: GuideOrientation,
    pub position: F,
    pub start: F,
    pub end: F,
}

} // verus!
