//! The platforms a build targets.

use vstd::prelude::*;
use vstd::string::StrSliceExecFns;

verus! {

#[derive(Clone, Copy, Debug, PartialEq, Eq, Hash, Structural)]
pub enum PlatformTarget {
    /// iOS: UIKit via a static library and C FFI.
    Ios,
    /// Android: the View system via JNI and a shared object.
    Android,
    /// Web: WASM and a DOM shim.
    Web,
}

/// `c` lowercases to the lowercase letter `l`: it is `l` or `l`'s capital.
pub open spec fn lowers_to(c: char, l: char) -> bool {
    c == l || ('A' <= c <= 'Z' && c as u32 + 32 == l as u32)
}

/// `s` lowercases to the lowercase word `word`. No character outside ASCII
/// lowercases to an ASCII letter of these words, so this is what comparing
/// the lowercased text with `word` gives.
pub open spec fn lowercases_to(s: Seq<char>, word: Seq<char>) -> bool {
    s.len() == word.len() && forall|i: int| 0 <= i < s.len() ==> #[trigger] lowers_to(s[i], word[i])
}

pub open spec fn target_named(s: Seq<char>) -> Option<PlatformTarget> {
    if lowercases_to(s, "ios"@) {
        Some(PlatformTarget::Ios)
    } else if lowercases_to(s, "android"@) {
        Some(PlatformTarget::Android)
    } else if lowercases_to(s, "web"@) {
        Some(PlatformTarget::Web)
    } else {
        None
    }
}

pub open spec fn target_name(t: PlatformTarget) -> Seq<char> {
    match t {
        PlatformTarget::Ios => "ios"@,
        PlatformTarget::Android => "android"@,
        PlatformTarget::Web => "web"@,
    }
}

fn lowercases_to_exec(s: &str, word: &str) -> (r: bool)
    ensures
        r == lowercases_to(s@, word@),
{
    let n = s.unicode_len();
    if n != word.unicode_len() {
        return false;
    }
    let mut i: usize = 0;
    while i < n
        invariant
            n == s@.len(),
            n == word@.len(),
            i <= n,
            forall|k: int| 0 <= k < i ==> #[trigger] lowers_to(s@[k], word@[k]),
        decreases n - i,
    {
        let c = s.get_char(i);
        let l = word.get_char(i);
        let ok = c == l || ('A' <= c && c <= 'Z' && (c as u32) + 32 == l as u32);
        if !ok {
            assert(!lowers_to(s@[i as int], word@[i as int]));
            return false;
        }
        i = i + 1;
    }
    true
}

impl PlatformTarget {
    /// The target named `s`, in any letter case.
    pub fn from_str(s: &str) -> (t: Option<PlatformTarget>)
        ensures
            t == target_named(s@),
    {
        if lowercases_to_exec(s, "ios") {
            Some(PlatformTarget::Ios)
        } else if lowercases_to_exec(s, "android") {
            Some(PlatformTarget::Android)
        } else if lowercases_to_exec(s, "web") {
            Some(PlatformTarget::Web)
        } else {
            None
        }
    }

    pub fn name(&self) -> (s: &'static str)
        ensures
            s@ == target_name(*self),
    {
        match self {
            PlatformTarget::Ios => "ios",
            PlatformTarget::Android => "android",
            PlatformTarget::Web => "web",
        }
    }

    /// The Rust compilation target triple.
    pub fn triple(&self) -> (s: &'static str)
        ensures
            s@ == (match *self {
                PlatformTarget::Ios => "aarch64-apple-ios"@,
                PlatformTarget::Android => "aarch64-linux-android"@,
                PlatformTarget::Web => "wasm32-unknown-unknown"@,
            }),
    {
        match self {
            PlatformTarget::Ios => "aarch64-apple-ios",
            PlatformTarget::Android => "aarch64-linux-android",
            PlatformTarget::Web => "wasm32-unknown-unknown",
        }
    }

    /// The native UI backend of the target.
    pub fn native_backend(&self) -> (s: &'static str)
        ensures
            s@ == (match *self {
                PlatformTarget::Ios => "UIKit"@,
                PlatformTarget::Android => "Android View"@,
                PlatformTarget::Web => "DOM"@,
            }),
    {
        match self {
            PlatformTarget::Ios => "UIKit",
            PlatformTarget::Android => "Android View",
            PlatformTarget::Web => "DOM",
        }
    }

    /// How calls cross the boundary to the native side.
    pub fn ffi_mechanism(&self) -> (s: &'static str)
        ensures
            s@ == (match *self {
                PlatformTarget::Ios => "C static lib + vtable"@,
                PlatformTarget::Android => "JNI + direct ByteBuffer"@,
                PlatformTarget::Web => "wasm-bindgen + JS shim"@,
            }),
    {
        match self {
            PlatformTarget::Ios => "C static lib + vtable",
            PlatformTarget::Android => "JNI + direct ByteBuffer",
            PlatformTarget::Web => "wasm-bindgen + JS shim",
        }
    }

    /// The source of vsync frames.
    pub fn frame_driver(&self) -> (s: &'static str)
        ensures
            s@ == (match *self {
                PlatformTarget::Ios => "CADisplayLink"@,
                PlatformTarget::Android => "Choreographer"@,
                PlatformTarget::Web => "requestAnimationFrame"@,
            }),
    {
        match self {
            PlatformTarget::Ios => "CADisplayLink",
            PlatformTarget::Android => "Choreographer",
            PlatformTarget::Web => "requestAnimationFrame",
        }
    }

    pub fn all_mobile() -> (r: [PlatformTarget; 2])
        ensures
            r@ == seq![PlatformTarget::Ios, PlatformTarget::Android],
    {
        let r = [PlatformTarget::Ios, PlatformTarget::Android];
        assert(r@ =~= seq![PlatformTarget::Ios, PlatformTarget::Android]);
        r
    }

    pub fn all() -> (r: [PlatformTarget; 3])
        ensures
            r@ == seq![PlatformTarget::Ios, PlatformTarget::Android, PlatformTarget::Web],
    {
        let r = [PlatformTarget::Ios, PlatformTarget::Android, PlatformTarget::Web];
        assert(r@ =~= seq![PlatformTarget::Ios, PlatformTarget::Android, PlatformTarget::Web]);
        r
    }
}

/// Every target is found again from its own name.
pub proof fn lemma_target_name_roundtrip(t: PlatformTarget)
    ensures
        target_named(target_name(t)) == Some(t),
{
    reveal_strlit("ios");
    reveal_strlit("android");
    reveal_strlit("web");
    let n = target_name(t);
    assert(lowercases_to(n, n));
    match t {
        PlatformTarget::Ios => {},
        PlatformTarget::Android => {
            assert(!lowers_to(n[0], "ios"@[0]) || n.len() != 3);
        },
        PlatformTarget::Web => {
            assert(!lowers_to(n[0], "ios"@[0]));
            assert(n.len() != "android"@.len());
        },
    }
}

} // verus!
