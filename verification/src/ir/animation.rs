//! Animation IR: one-shot native animation descriptions, set up once per state
//! change rather than driven frame by frame.

use vstd::prelude::*;
use crate::bytes::str_eq;
use crate::ir::{NodeId, SlotId};

verus! {

/// Properties that animate on the compositor alone, without layout.
#[derive(Clone, Copy, Debug, PartialEq, Eq, Hash, Structural)]
pub enum AnimatableProp {
    Opacity,
    TranslateX,
    TranslateY,
    Scale,
    Rotate,
}

/// The names of the properties that may be animated (`offset` among them,
/// though no `AnimatableProp` carries that name).
pub open spec fn animatable_name(name: Seq<char>) -> bool {
    name == "opacity"@ || name == "translateX"@ || name == "translateY"@ || name == "scale"@ || name
        == "rotate"@ || name == "offset"@
}

pub open spec fn animatable_named(name: Seq<char>) -> Option<AnimatableProp> {
    if name == "opacity"@ {
        Some(AnimatableProp::Opacity)
    } else if name == "translateX"@ {
        Some(AnimatableProp::TranslateX)
    } else if name == "translateY"@ {
        Some(AnimatableProp::TranslateY)
    } else if name == "scale"@ {
        Some(AnimatableProp::Scale)
    } else if name == "rotate"@ {
        Some(AnimatableProp::Rotate)
    } else {
        None
    }
}

impl AnimatableProp {
    pub fn is_animatable(name: &str) -> (r: bool)
        ensures
            r == animatable_name(name@),
    {
        str_eq(name, "opacity") || str_eq(name, "translateX") || str_eq(name, "translateY") || str_eq(
            name,
            "scale",
        ) || str_eq(name, "rotate") || str_eq(name, "offset")
    }

    pub fn from_name(name: &str) -> (p: Option<AnimatableProp>)
        ensures
            p == animatable_named(name@),
    {
        if str_eq(name, "opacity") {
            Some(AnimatableProp::Opacity)
        } else if str_eq(name, "translateX") {
            Some(AnimatableProp::TranslateX)
        } else if str_eq(name, "translateY") {
            Some(AnimatableProp::TranslateY)
        } else if str_eq(name, "scale") {
            Some(AnimatableProp::Scale)
        } else if str_eq(name, "rotate") {
            Some(AnimatableProp::Rotate)
        } else {
            None
        }
    }
}

/// Every property name that `from_name` knows may be animated.
pub proof fn lemma_named_props_are_animatable(name: Seq<char>)
    ensures
        animatable_named(name) is Some ==> animatable_name(name),
{
}

/// Properties that must never be driven frame by frame through the reactive
/// flush.
#[derive(Clone, Copy, Debug, PartialEq, Eq, Hash, Structural)]
pub enum LayoutProp {
    Width,
    Height,
    Padding,
    Margin,
    FontSize,
}

/// Timing curves. A spring's damping and stiffness are `f32` values held as
/// their IEEE-754 bit patterns.
#[derive(Clone, Copy, Debug, PartialEq, Eq, Structural)]
pub enum Easing {
    Linear,
    EaseIn,
    EaseOut,
    EaseInOut,
    Spring { damping: u32, stiffness: u32 },
}

/// One native animation. `from` and `to` are `f64` values held as their
/// IEEE-754 bit patterns.
#[derive(Clone, Debug)]
pub struct AnimationSpec {
    pub id: u32,
    pub nodes: Vec<NodeId>,
    pub property: AnimatableProp,
    /// The slot whose change starts the animation.
    pub source_slot: SlotId,
    pub from: u64,
    pub to: u64,
    pub duration_ms: u32,
    pub easing: Easing,
}

/// One animation set up, or cancelled, per state change.
#[derive(Clone, Debug)]
pub enum AnimationCommand {
    Start(AnimationSpec),
    Cancel { id: u32 },
}

} // verus!
