//! What `flash dev` reports after each reload.

use vstd::prelude::*;
use vstd::string::StringExecFns;
use crate::num::{nat_digits, push_u64_digits};
use crate::runtime::hot_reload::{DevSession, HotReloadKind, HotReloadResult};

verus! {

/// The line describing a reload: the patched props of a hot reload, or the
/// kept slots of a hot restart.
pub open spec fn reload_text(kind: HotReloadKind, props_patched: nat, slots: nat) -> Seq<char> {
    match kind {
        HotReloadKind::HotReload => "Hot reload — "@ + nat_digits(props_patched)
            + " prop(s) patched, state preserved"@,
        HotReloadKind::HotRestart => "Hot restart — tree remounted, "@ + nat_digits(slots)
            + " slot(s) preserved"@,
    }
}

pub fn reload_label(reload: &HotReloadResult, session: &DevSession) -> (s: String)
    ensures
        s@ == reload_text(reload.kind, reload.props_patched as nat, session.engine.slots.values().len()),
{
    let mut s = String::new();
    match reload.kind {
        HotReloadKind::HotReload => {
            s.append("Hot reload — ");
            push_u64_digits(&mut s, reload.props_patched as u64);
            s.append(" prop(s) patched, state preserved");
        },
        HotReloadKind::HotRestart => {
            s.append("Hot restart — tree remounted, ");
            let n = session.slot_values().len();
            push_u64_digits(&mut s, n as u64);
            s.append(" slot(s) preserved");
        },
    }
    s
}

} // verus!
