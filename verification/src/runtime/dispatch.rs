//! Handler dispatch: native button taps reach the session that is
//! registered. The application keeps one dispatcher for the process and
//! guards it with a lock.

use vstd::prelude::*;
use crate::ir::HandlerId;
use crate::platform::host::HostCallbacks;
use crate::runtime::native::NativeSession;

verus! {

/// The session that taps are dispatched to, if any.
pub struct Dispatcher<H: HostCallbacks> {
    pub active: Option<NativeSession<H>>,
}

impl<H: HostCallbacks> Dispatcher<H> {
    pub fn new() -> (d: Dispatcher<H>)
        ensures
            d.active is None,
    {
        Dispatcher { active: None }
    }

    /// Makes `session` the one taps go to.
    pub fn register_session(&mut self, session: NativeSession<H>)
        ensures
            final(self).active == Some(session),
    {
        self.active = Some(session);
    }

    pub fn unregister_session(&mut self)
        ensures
            final(self).active is None,
    {
        self.active = None;
    }

    /// Fires the handler on the registered session; `true` if there was one.
    pub fn dispatch_handler(&mut self, handler_id: u32) -> (fired: bool)
        requires
            match old(self).active {
                Some(s) => s.can_fire(HandlerId(handler_id)),
                None => true,
            },
        ensures
            fired == old(self).active is Some,
            match (old(self).active, final(self).active) {
                (Some(s), Some(t)) => t.engine.screen == s.engine.screen && t.engine.slots.values()
                    == s.fired_values(HandlerId(handler_id)),
                (None, None) => true,
                _ => false,
            },
    {
        match &mut self.active {
            Some(s) => {
                s.fire_handler(HandlerId(handler_id));
                true
            },
            None => false,
        }
    }
}

} // verus!
