//! Run targets of `flash run -d` and `flash devices`.

use vstd::prelude::*;
use crate::bytes::str_eq;
use vstd::string::StringExecFns;

verus! {

#[derive(Clone, Copy, Debug, PartialEq, Eq, Structural)]
pub enum Device {
    Simulator,
    Native,
    Ios,
    Android,
}

pub open spec fn device_id(d: Device) -> Seq<char> {
    match d {
        Device::Simulator => "simulator"@,
        Device::Native => "native"@,
        Device::Ios => "ios"@,
        Device::Android => "android"@,
    }
}

/// The device a name selects; `sim` and `desktop` also name the simulator.
pub open spec fn device_named(s: Seq<char>) -> Option<Device> {
    if s == "simulator"@ || s == "sim"@ || s == "desktop"@ {
        Some(Device::Simulator)
    } else if s == "native"@ {
        Some(Device::Native)
    } else if s == "ios"@ {
        Some(Device::Ios)
    } else if s == "android"@ {
        Some(Device::Android)
    } else {
        None
    }
}

impl Device {
    pub fn id(self) -> (s: &'static str)
        ensures
            s@ == device_id(self),
    {
        match self {
            Device::Simulator => "simulator",
            Device::Native => "native",
            Device::Ios => "ios",
            Device::Android => "android",
        }
    }

    pub fn label(self) -> (s: &'static str)
        ensures
            s@ == (match self {
                Device::Simulator => "Simulator (in-process)"@,
                Device::Native => "Native (command buffer)"@,
                Device::Ios => "iOS (UIKit)"@,
                Device::Android => "Android (Views)"@,
            }),
    {
        match self {
            Device::Simulator => "Simulator (in-process)",
            Device::Native => "Native (command buffer)",
            Device::Ios => "iOS (UIKit)",
            Device::Android => "Android (Views)",
        }
    }

    pub fn parse(s: &str) -> (d: Option<Device>)
        ensures
            d == device_named(s@),
    {
        if str_eq(s, "simulator") || str_eq(s, "sim") || str_eq(s, "desktop") {
            Some(Device::Simulator)
        } else if str_eq(s, "native") {
            Some(Device::Native)
        } else if str_eq(s, "ios") {
            Some(Device::Ios)
        } else if str_eq(s, "android") {
            Some(Device::Android)
        } else {
            None
        }
    }

    /// The device used when none is named.
    pub fn default() -> (d: Device)
        ensures
            d == Device::Simulator,
    {
        Device::Simulator
    }
}

/// Why a device cannot be used here, for the devices that can be missing.
pub fn unavailable_reason(d: Device) -> (s: String)
    ensures
        s@ == (match d {
            Device::Ios => "Requires macOS + Xcode (xcode-select --install)"@,
            Device::Android => "Set ANDROID_HOME (install Android Studio)"@,
            _ => Seq::<char>::empty(),
        }),
{
    match d {
        Device::Ios => String::from_str("Requires macOS + Xcode (xcode-select --install)"),
        Device::Android => String::from_str("Set ANDROID_HOME (install Android Studio)"),
        _ => String::new(),
    }
}

/// Every device is selected again by its own id.
pub proof fn lemma_device_id_roundtrip(d: Device)
    ensures
        device_named(device_id(d)) == Some(d),
{
    reveal_strlit("simulator");
    reveal_strlit("sim");
    reveal_strlit("desktop");
    reveal_strlit("native");
    reveal_strlit("ios");
    reveal_strlit("android");
    assert("native"@.len() != "simulator"@.len() && "native"@.len() != "sim"@.len());
    assert("native"@[0] != "desktop"@[0]);
    assert("ios"@[0] != "sim"@[0]);
    assert("ios"@.len() != "simulator"@.len() && "ios"@.len() != "desktop"@.len() && "ios"@.len() != "native"@.len());
    assert("android"@[0] != "desktop"@[0] && "android"@.len() != "simulator"@.len() && "android"@.len() != "sim"@.len());
    assert("android"@.len() != "native"@.len() && "android"@.len() != "ios"@.len());
}

} // verus!
