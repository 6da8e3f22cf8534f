//! The normal-mode interaction state of the schematic editor.
use vstd::prelude::*;
use crate::model::PtA;

verus! {

/// How a drag moves the selection: snapped to the grid, with the offset
/// gathered so far in tenths of a grid unit, or freely.
#[derive(Clone, Copy, Debug, PartialEq, Eq)]
pub enum MoveType {
    Grid(PtA),
    Continuous,
}

/// What the editor is doing when no tool is active: nothing, drawing a
/// selection window from the given screen position, or dragging objects.
#[derive(Clone, Copy, Debug, PartialEq, Eq)]
pub enum NormalState {
    Default,
    SelectWindow((i32, i32)),
    DragMove(MoveType),
}

} // verus!
