//! Which of the two panes of a split view holds the focus.

use vstd::prelude::*;

verus! {

/// The focused pane of a two-pane view.
#[derive(Clone, Copy, PartialEq, Eq, Structural, Debug)]
pub enum Focus {
    Left,
    Right,
}

impl Focus {
    /// The other pane.
    pub fn swap(self) -> (r: Focus)
        ensures
            self is Left ==> r is Right,
            self is Right ==> r is Left,
    {
        match self {
            Focus::Left => Focus::Right,
            Focus::Right => Focus::Left,
        }
    }
}

} // verus!
