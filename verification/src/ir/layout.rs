//! Layout IR: single-pass flex layout descriptions and the frames it assigns.

use vstd::prelude::*;
use crate::ir::NodeId;

verus! {

#[derive(Clone, Copy, Debug, PartialEq, Eq, Structural)]
pub enum FlexDirection {
    Row,
    Column,
}

#[derive(Clone, Copy, Debug, PartialEq, Eq, Structural)]
pub enum Align {
    Start,
    Center,
    End,
    Stretch,
}

/// How a container lays out its children. Lengths and weights are `f32`
/// values held as their IEEE-754 bit patterns.
#[derive(Clone, Copy, Debug)]
pub struct LayoutSpec {
    pub node: NodeId,
    pub direction: FlexDirection,
    pub gap: u32,
    pub padding: u32,
    pub align: Align,
    pub child_weight: Option<u32>,
}

/// A frame assigned to a node, batched apart from property updates. The
/// coordinates are `f32` values held as their IEEE-754 bit patterns.
#[derive(Clone, Copy, Debug)]
pub struct FrameCommand {
    pub node: NodeId,
    pub x: u32,
    pub y: u32,
    pub width: u32,
    pub height: u32,
}

} // verus!
