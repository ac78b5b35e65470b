//! Plain data of the user interface layer.
use vstd::prelude::*;

verus! {

/// How a line of text is placed in its rectangle.
#[derive(Clone, Copy, Debug, PartialEq, Eq, Structural)]
pub enum UiTextLayout {
    Left,
    Center,
    Right,
}

/// What the pointer did to a widget in the current frame.
#[derive(Clone, Copy, Debug, PartialEq, Eq, Structural)]
pub enum UiInteraction {
    Inactive,
    Hovered,
    Clicked { just: bool },
}

} // verus!
