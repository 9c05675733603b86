//! Dev sessions: recompile a screen, diff the IR, patch the live tree, and
//! keep the slot values.

use vstd::prelude::*;
use crate::ir::hot_reload::{
    hot_reload_plan, lemma_slot_position_bounds, map_slot_values, mapped_slot_value, old_values_cover,
    plan_hot_reload, slot_position, HotReloadPlan,
};
use crate::ir::{HandlerId, NodeKind, ScreenIr};
use crate::runtime::live_renderer::{count_set_props, live_apply_all, LiveRenderer, PatchOp, PropEntries};
use crate::runtime::reactive::{
    all_ops_ok, body_outcome, body_runs, flush_calls, handler_index, init_values, mount_calls, props_calls,
    slot_flushable, store_state, ReactiveEngine,
};
use crate::runtime::state::{dirty_slots, no_dirty, SlotStore};

verus! {

/// What applying a recompiled screen did.
#[derive(Clone, Copy, Debug, PartialEq, Eq, Structural)]
pub struct HotReloadResult {
    pub kind: HotReloadKind,
    pub props_patched: usize,
    pub slots_preserved: bool,
}

#[derive(Clone, Copy, Debug, PartialEq, Eq, Structural)]
pub enum HotReloadKind {
    /// Tree unchanged: props patched, state kept.
    HotReload,
    /// Structure changed: tree remounted, slot values kept by name.
    HotRestart,
}

/// A reactive engine driving a live tree.
pub struct DevSession {
    pub engine: ReactiveEngine,
    pub renderer: LiveRenderer,
}

pub open spec fn empty_live() -> (Seq<(NodeKind, PropEntries)>, Seq<PatchOp<Seq<char>>>) {
    (Seq::empty(), Seq::empty())
}

/// The slot values after a reload from `old` to `new`: unchanged for a props
/// patch, else each new slot takes the value of the old slot of its name.
pub open spec fn reload_values(old: ScreenIr, new: ScreenIr, ints: Seq<i64>) -> Seq<i64> {
    match hot_reload_plan(old, new) {
        HotReloadPlan::PropsOnly => ints,
        HotReloadPlan::Remount { .. } => Seq::new(
            new.slots@.len(),
            |j: int| mapped_slot_value(old.slots@, ints, new.slots@[j]),
        ),
    }
}

impl DevSession {
    /// The engine's slots match its screen and the live tree is well formed.
    pub open spec fn wf(&self) -> bool {
        &&& self.engine.slots.wf()
        &&& self.renderer.wf()
        &&& self.engine.slots.values().len() == self.engine.screen.slots@.len()
    }

    /// Mounts `screen` on a fresh live tree.
    pub fn mount(screen: ScreenIr) -> (s: DevSession)
        requires
            screen.slots@.len() <= u32::MAX,
            all_ops_ok(screen, init_values(screen.slots@)),
        ensures
            s.wf(),
            s.engine.screen == screen,
            s.engine.slots.values() == init_values(screen.slots@),
            s.engine.slots.dirty_flags() == no_dirty(screen.slots@.len()),
            s.renderer.state() == live_apply_all(empty_live(), mount_calls(screen, init_values(screen.slots@))),
    {
        let engine = ReactiveEngine::new(screen);
        let mut renderer = LiveRenderer::new();
        assert(renderer.state() == empty_live());
        engine.mount_live(&mut renderer);
        DevSession { engine, renderer }
    }

    /// Applies a recompiled screen: patches props where the tree kept its
    /// shape, else remounts with the slot values kept by name.
    pub fn apply(&mut self, new_screen: ScreenIr) -> (r: HotReloadResult)
        requires
            old(self).wf(),
            new_screen.slots@.len() <= u32::MAX,
            all_ops_ok(
                new_screen,
                reload_values(old(self).engine.screen, new_screen, old(self).engine.slots.values()),
            ),
        ensures
            final(self).wf(),
            final(self).engine.screen == new_screen,
            final(self).engine.slots.values() == reload_values(
                old(self).engine.screen,
                new_screen,
                old(self).engine.slots.values(),
            ),
            r.slots_preserved,
            match hot_reload_plan(old(self).engine.screen, new_screen) {
                HotReloadPlan::PropsOnly => {
                    &&& r.kind == HotReloadKind::HotReload
                    &&& r.props_patched == count_set_props(final(self).renderer.patches())
                    &&& final(self).engine.slots.dirty_flags() == old(self).engine.slots.dirty_flags()
                    &&& final(self).renderer.state() == live_apply_all(
                        (old(self).renderer.tree(), Seq::empty()),
                        props_calls(new_screen, old(self).engine.slots.values()),
                    )
                },
                HotReloadPlan::Remount { .. } => {
                    &&& r.kind == HotReloadKind::HotRestart
                    &&& r.props_patched == final(self).renderer.tree().len()
                    &&& final(self).engine.slots.dirty_flags() == no_dirty(new_screen.slots@.len())
                    &&& final(self).renderer.state() == live_apply_all(
                        empty_live(),
                        mount_calls(new_screen, final(self).engine.slots.values()),
                    )
                },
            },
    {
        let plan = plan_hot_reload(&self.engine.screen, &new_screen);
        match plan {
            HotReloadPlan::PropsOnly => self.hot_reload_props(new_screen),
            HotReloadPlan::Remount { .. } => self.hot_restart(new_screen),
        }
    }

    /// Runs a handler, then flushes the changed slots to the live tree.
    pub fn fire_handler(&mut self, handler_id: HandlerId)
        requires
            old(self).wf(),
            handler_index(old(self).engine.screen.handlers@, handler_id) is Some,
            body_runs(
                store_state(old(self).engine.slots),
                old(self).engine.screen.actions@,
                old(self).engine.screen.handlers@[handler_index(
                    old(self).engine.screen.handlers@,
                    handler_id,
                )->0].body,
            ),
            ({
                let after = body_outcome(
                    store_state(old(self).engine.slots),
                    old(self).engine.screen.actions@,
                    old(self).engine.screen.handlers@[handler_index(
                        old(self).engine.screen.handlers@,
                        handler_id,
                    )->0].body,
                );
                forall|s: int|
                    0 <= s < after.0.len() && #[trigger] after.1[s] ==> slot_flushable(old(self).engine.screen, after.0, s)
            }),
        ensures
            final(self).wf(),
            final(self).engine.screen == old(self).engine.screen,
            ({
                let after = body_outcome(
                    store_state(old(self).engine.slots),
                    old(self).engine.screen.actions@,
                    old(self).engine.screen.handlers@[handler_index(
                        old(self).engine.screen.handlers@,
                        handler_id,
                    )->0].body,
                );
                &&& final(self).engine.slots.values() == after.0
                &&& final(self).engine.slots.dirty_flags() == no_dirty(after.0.len())
                &&& final(self).renderer.state() == live_apply_all(
                    old(self).renderer.state(),
                    flush_calls(old(self).engine.screen, after.0, dirty_slots(after.1)),
                )
            }),
    {
        let ghost after = body_outcome(
            store_state(self.engine.slots),
            self.engine.screen.actions@,
            self.engine.screen.handlers@[handler_index(self.engine.screen.handlers@, handler_id)->0].body,
        );
        self.engine.fire_handler(handler_id);
        assert(self.engine.slots.values() == after.0 && self.engine.slots.dirty_flags() == after.1);
        assert forall|s: int|
            0 <= s < self.engine.slots.values().len() && #[trigger] self.engine.slots.dirty_flags()[s]
                implies slot_flushable(self.engine.screen, self.engine.slots.values(), s) by {
            assert(after.1[s]);
        }
        self.engine.flush_live(&mut self.renderer);
    }

    fn hot_reload_props(&mut self, new_screen: ScreenIr) -> (r: HotReloadResult)
        requires
            old(self).wf(),
            new_screen.slots@.len() == old(self).engine.screen.slots@.len(),
            all_ops_ok(new_screen, old(self).engine.slots.values()),
        ensures
            final(self).wf(),
            final(self).engine.screen == new_screen,
            final(self).engine.slots == old(self).engine.slots,
            r == (HotReloadResult {
                kind: HotReloadKind::HotReload,
                props_patched: r.props_patched,
                slots_preserved: true,
            }),
            r.props_patched == count_set_props(final(self).renderer.patches()),
            final(self).renderer.state() == live_apply_all(
                (old(self).renderer.tree(), Seq::empty()),
                props_calls(new_screen, old(self).engine.slots.values()),
            ),
    {
        self.engine.screen = new_screen;
        self.renderer.clear_patches();
        self.engine.write_props_live(&mut self.renderer);
        let props_patched = self.renderer.set_prop_patch_count();
        HotReloadResult { kind: HotReloadKind::HotReload, props_patched, slots_preserved: true }
    }

    fn hot_restart(&mut self, new_screen: ScreenIr) -> (r: HotReloadResult)
        requires
            old(self).wf(),
            new_screen.slots@.len() <= u32::MAX,
            hot_reload_plan(old(self).engine.screen, new_screen) is Remount,
            all_ops_ok(
                new_screen,
                reload_values(old(self).engine.screen, new_screen, old(self).engine.slots.values()),
            ),
        ensures
            final(self).wf(),
            final(self).engine.screen == new_screen,
            final(self).engine.slots.values() == reload_values(
                old(self).engine.screen,
                new_screen,
                old(self).engine.slots.values(),
            ),
            final(self).engine.slots.dirty_flags() == no_dirty(new_screen.slots@.len()),
            r == (HotReloadResult {
                kind: HotReloadKind::HotRestart,
                props_patched: r.props_patched,
                slots_preserved: true,
            }),
            r.props_patched == final(self).renderer.tree().len(),
            final(self).renderer.state() == live_apply_all(
                empty_live(),
                mount_calls(new_screen, final(self).engine.slots.values()),
            ),
    {
        let ghost old_slots = self.engine.screen.slots@;
        let ghost ints = self.engine.slots.values();
        proof {
            assert forall|j: int| 0 <= j < new_screen.slots@.len() implies match #[trigger] slot_position(
                old_slots,
                new_screen.slots@[j].name,
            ) {
                Some(i) => i < ints.len(),
                None => true,
            } by {
                lemma_slot_position_bounds(old_slots, new_screen.slots@[j].name);
            }
            assert(old_values_cover(old_slots, ints, new_screen.slots@));
        }
        let preserved = map_slot_values(&self.engine.screen.slots, self.engine.slots.int_slice(), &new_screen.slots);
        assert(preserved@ =~= reload_values(self.engine.screen, new_screen, ints));
        self.engine.screen = new_screen;
        self.engine.slots = SlotStore::from_init(preserved);
        self.renderer.clear();
        assert(self.renderer.state() == empty_live());
        self.engine.mount_live(&mut self.renderer);
        let n = self.renderer.node_count();
        HotReloadResult { kind: HotReloadKind::HotRestart, props_patched: n, slots_preserved: true }
    }

    /// Whether `screen` can be mounted: its slots fit in `u32` ids and its
    /// update operations evaluate on the slots' initial values.
    pub fn can_mount(screen: &ScreenIr) -> (r: bool)
        ensures
            r == (screen.slots@.len() <= u32::MAX && all_ops_ok(*screen, init_values(screen.slots@))),
    {
        if screen.slots.len() > 4294967295usize {
            return false;
        }
        let ints = crate::runtime::reactive::initial_values(&screen.slots);
        crate::runtime::reactive::ops_evaluate(screen, ints.as_slice())
    }

    /// Whether `new_screen` can replace the session's screen: its slots fit
    /// in `u32` ids and its update operations evaluate on the values the
    /// reload leaves in its slots.
    pub fn can_apply(&self, new_screen: &ScreenIr) -> (r: bool)
        requires
            self.wf(),
        ensures
            r == (new_screen.slots@.len() <= u32::MAX && all_ops_ok(
                *new_screen,
                reload_values(self.engine.screen, *new_screen, self.engine.slots.values()),
            )),
    {
        if new_screen.slots.len() > 4294967295usize {
            return false;
        }
        let ghost old_slots = self.engine.screen.slots@;
        let ghost ints = self.engine.slots.values();
        match plan_hot_reload(&self.engine.screen, new_screen) {
            HotReloadPlan::PropsOnly => crate::runtime::reactive::ops_evaluate(new_screen, self.engine.slots.int_slice()),
            HotReloadPlan::Remount { .. } => {
                proof {
                    assert forall|j: int| 0 <= j < new_screen.slots@.len() implies match #[trigger] slot_position(
                        old_slots,
                        new_screen.slots@[j].name,
                    ) {
                        Some(i) => i < ints.len(),
                        None => true,
                    } by {
                        lemma_slot_position_bounds(old_slots, new_screen.slots@[j].name);
                    }
                    assert(old_values_cover(old_slots, ints, new_screen.slots@));
                }
                let mapped = map_slot_values(&self.engine.screen.slots, self.engine.slots.int_slice(), &new_screen.slots);
                assert(mapped@ =~= reload_values(self.engine.screen, *new_screen, ints));
                crate::runtime::reactive::ops_evaluate(new_screen, mapped.as_slice())
            },
        }
    }

    /// The current slot values.
    pub fn slot_values(&self) -> (r: &[i64])
        ensures
            r@ == self.engine.slots.values(),
    {
        self.engine.slots.int_slice()
    }
}

} // verus!
