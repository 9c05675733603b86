//! Platform animation adapters: Core Animation on iOS, Animator on Android,
//! WAAPI on the web. Animations are set up once per state change.

use vstd::prelude::*;
use crate::ir::animation::{AnimatableProp, AnimationSpec, Easing};
use crate::platform::target::PlatformTarget;

verus! {

/// The handle a platform returns for an animation it set up.
#[derive(Clone, Copy, Debug, PartialEq, Eq, Structural)]
pub struct AnimationHandle(pub u64);

/// Implemented by the iOS, Android and Web adapters; called once per state
/// change, never per frame.
pub trait PlatformAnimator {
    fn start(&mut self, spec: &AnimationSpec) -> AnimationHandle;

    fn cancel(&mut self, handle: AnimationHandle);
}

/// The platform's name for an easing curve.
pub open spec fn easing_name(easing: Easing, target: PlatformTarget) -> Seq<char> {
    match easing {
        Easing::Linear => "linear"@,
        Easing::EaseInOut => "easeInOut"@,
        Easing::Spring { .. } => "spring"@,
        Easing::EaseIn => if target == PlatformTarget::Ios {
            "easeIn"@
        } else {
            "accelerate"@
        },
        Easing::EaseOut => if target == PlatformTarget::Ios {
            "easeOut"@
        } else {
            "decelerate"@
        },
    }
}

pub fn easing_to_platform(easing: Easing, target: PlatformTarget) -> (s: &'static str)
    ensures
        s@ == easing_name(easing, target),
{
    match (easing, target) {
        (Easing::Linear, _) => "linear",
        (Easing::EaseIn, PlatformTarget::Ios) => "easeIn",
        (Easing::EaseOut, PlatformTarget::Ios) => "easeOut",
        (Easing::EaseInOut, _) => "easeInOut",
        (Easing::Spring { .. }, PlatformTarget::Ios) => "spring",
        (Easing::Spring { .. }, PlatformTarget::Android) => "spring",
        (Easing::Spring { .. }, PlatformTarget::Web) => "spring",
        (Easing::EaseIn, _) => "accelerate",
        (Easing::EaseOut, _) => "decelerate",
    }
}

/// The platform's key path for an animatable property.
pub open spec fn native_key_name(prop: AnimatableProp, target: PlatformTarget) -> Seq<char> {
    match prop {
        AnimatableProp::Opacity => "opacity"@,
        AnimatableProp::TranslateX => match target {
            PlatformTarget::Ios => "transform.translation.x"@,
            PlatformTarget::Android => "translationX"@,
            PlatformTarget::Web => "translateX"@,
        },
        AnimatableProp::TranslateY => match target {
            PlatformTarget::Ios => "transform.translation.y"@,
            PlatformTarget::Android => "translationY"@,
            PlatformTarget::Web => "translateY"@,
        },
        AnimatableProp::Scale => match target {
            PlatformTarget::Ios => "transform.scale"@,
            PlatformTarget::Android => "scaleX"@,
            PlatformTarget::Web => "scale"@,
        },
        AnimatableProp::Rotate => match target {
            PlatformTarget::Ios => "transform.rotation.z"@,
            PlatformTarget::Android => "rotation"@,
            PlatformTarget::Web => "rotate"@,
        },
    }
}

pub fn animatable_to_native_key(prop: AnimatableProp, target: PlatformTarget) -> (s: &'static str)
    ensures
        s@ == native_key_name(prop, target),
{
    match (prop, target) {
        (AnimatableProp::Opacity, _) => "opacity",
        (AnimatableProp::TranslateX, PlatformTarget::Ios) => "transform.translation.x",
        (AnimatableProp::TranslateX, PlatformTarget::Android) => "translationX",
        (AnimatableProp::TranslateX, PlatformTarget::Web) => "translateX",
        (AnimatableProp::TranslateY, PlatformTarget::Ios) => "transform.translation.y",
        (AnimatableProp::TranslateY, PlatformTarget::Android) => "translationY",
        (AnimatableProp::TranslateY, PlatformTarget::Web) => "translateY",
        (AnimatableProp::Scale, PlatformTarget::Ios) => "transform.scale",
        (AnimatableProp::Scale, PlatformTarget::Android) => "scaleX",
        (AnimatableProp::Scale, PlatformTarget::Web) => "scale",
        (AnimatableProp::Rotate, PlatformTarget::Ios) => "transform.rotation.z",
        (AnimatableProp::Rotate, PlatformTarget::Android) => "rotation",
        (AnimatableProp::Rotate, PlatformTarget::Web) => "rotate",
    }
}

} // verus!
