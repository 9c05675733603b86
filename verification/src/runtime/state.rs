//! State slots with dirty tracking.

use vstd::prelude::*;
use crate::ir::SlotId;

verus! {

/// The values of a screen's state slots, and which of them changed since the
/// last flush.
#[derive(Clone, Debug)]
pub struct SlotStore {
    pub ints: Vec<i64>,
    pub strings: Vec<String>,
    pub bools: Vec<bool>,
    dirty: Vec<bool>,
}

/// The slots marked in `dirty`, in ascending order.
pub open spec fn dirty_slots(dirty: Seq<bool>) -> Seq<SlotId>
    decreases dirty.len(),
{
    if dirty.len() == 0 {
        Seq::empty()
    } else {
        dirty_slots(dirty.drop_last()) + (if dirty.last() {
            seq![SlotId((dirty.len() - 1) as u32)]
        } else {
            Seq::empty()
        })
    }
}

pub open spec fn no_dirty(n: nat) -> Seq<bool> {
    Seq::new(n, |i: int| false)
}

impl SlotStore {
    /// Which slots are marked changed.
    pub closed spec fn dirty_flags(&self) -> Seq<bool> {
        self.dirty@
    }

    /// The integer values of the slots.
    pub closed spec fn values(&self) -> Seq<i64> {
        self.ints@
    }

    pub closed spec fn string_values(&self) -> Seq<String> {
        self.strings@
    }

    pub closed spec fn bool_values(&self) -> Seq<bool> {
        self.bools@
    }

    /// The store's vectors agree in length, and every slot has a `SlotId`.
    pub open spec fn wf(&self) -> bool {
        &&& self.dirty_flags().len() == self.values().len()
        &&& self.string_values().len() == self.values().len()
        &&& self.bool_values().len() == self.values().len()
        &&& self.values().len() <= u32::MAX
    }

    /// `num_slots` integer slots holding 0, none of them dirty.
    pub fn new(num_slots: usize) -> (s: SlotStore)
        requires
            num_slots <= u32::MAX,
        ensures
            s.wf(),
            s.values() == Seq::new(num_slots as nat, |i: int| 0i64),
            s.dirty_flags() == no_dirty(num_slots as nat),
            forall|i: int| 0 <= i < num_slots ==> (#[trigger] s.string_values()[i])@ == Seq::<char>::empty(),
            s.bool_values() == Seq::new(num_slots as nat, |i: int| false),
    {
        let mut ints: Vec<i64> = Vec::new();
        let mut strings: Vec<String> = Vec::new();
        let mut bools: Vec<bool> = Vec::new();
        let mut dirty: Vec<bool> = Vec::new();
        let mut i: usize = 0;
        while i < num_slots
            invariant
                i <= num_slots,
                ints@ == Seq::new(i as nat, |k: int| 0i64),
                dirty@ == no_dirty(i as nat),
                strings@.len() == i,
                forall|k: int| 0 <= k < i ==> (#[trigger] strings@[k])@ == Seq::<char>::empty(),
                bools@ == Seq::new(i as nat, |k: int| false),
            decreases num_slots - i,
        {
            ints.push(0);
            strings.push(String::new());
            bools.push(false);
            dirty.push(false);
            i = i + 1;
            assert(ints@ =~= Seq::new(i as nat, |k: int| 0i64));
            assert(dirty@ =~= no_dirty(i as nat));
            assert(bools@ =~= Seq::new(i as nat, |k: int| false));
        }
        SlotStore { ints, strings, bools, dirty }
    }

    /// A store holding `ints`, none of them dirty.
    pub fn from_init(ints: Vec<i64>) -> (s: SlotStore)
        requires
            ints@.len() <= u32::MAX,
        ensures
            s.wf(),
            s.values() == ints@,
            s.dirty_flags() == no_dirty(ints@.len()),
            forall|i: int| 0 <= i < ints@.len() ==> (#[trigger] s.string_values()[i])@ == Seq::<char>::empty(),
            s.bool_values() == Seq::new(ints@.len(), |i: int| false),
    {
        let n = ints.len();
        let mut strings: Vec<String> = Vec::new();
        let mut bools: Vec<bool> = Vec::new();
        let mut dirty: Vec<bool> = Vec::new();
        let mut i: usize = 0;
        while i < n
            invariant
                i <= n,
                dirty@ == no_dirty(i as nat),
                n == ints@.len(),
                strings@.len() == i,
                forall|k: int| 0 <= k < i ==> (#[trigger] strings@[k])@ == Seq::<char>::empty(),
                bools@ == Seq::new(i as nat, |k: int| false),
            decreases n - i,
        {
            strings.push(String::new());
            bools.push(false);
            dirty.push(false);
            i = i + 1;
            assert(dirty@ =~= no_dirty(i as nat));
            assert(bools@ =~= Seq::new(i as nat, |k: int| false));
        }
        SlotStore { ints, strings, bools, dirty }
    }

    /// The integer values, as a slice.
    pub(crate) fn int_slice(&self) -> (r: &[i64])
        ensures
            r@ == self.values(),
    {
        self.ints.as_slice()
    }

    pub fn get_int(&self, slot: SlotId) -> (v: i64)
        requires
            slot.0 < self.values().len(),
        ensures
            v == self.values()[slot.0 as int],
    {
        self.ints[slot.0 as usize]
    }

    /// Stores `value`; the slot turns dirty only when its value changes.
    pub fn set_int(&mut self, slot: SlotId, value: i64)
        requires
            old(self).wf(),
            slot.0 < old(self).values().len(),
        ensures
            final(self).wf(),
            final(self).values() == old(self).values().update(slot.0 as int, value),
            final(self).dirty_flags() == (if old(self).values()[slot.0 as int] != value {
                old(self).dirty_flags().update(slot.0 as int, true)
            } else {
                old(self).dirty_flags()
            }),
            final(self).string_values() == old(self).string_values(),
            final(self).bool_values() == old(self).bool_values(),
    {
        let i = slot.0 as usize;
        if self.ints[i] != value {
            self.ints.set(i, value);
            self.dirty.set(i, true);
        }
    }

    /// Adds one to the slot and marks it dirty.
    pub fn increment(&mut self, slot: SlotId)
        requires
            old(self).wf(),
            slot.0 < old(self).values().len(),
            old(self).values()[slot.0 as int] < i64::MAX,
        ensures
            final(self).wf(),
            final(self).values() == old(self).values().update(slot.0 as int, (old(self).values()[slot.0 as int] + 1) as i64),
            final(self).dirty_flags() == old(self).dirty_flags().update(slot.0 as int, true),
            final(self).string_values() == old(self).string_values(),
            final(self).bool_values() == old(self).bool_values(),
    {
        let i = slot.0 as usize;
        let v = self.ints[i] + 1;
        self.ints.set(i, v);
        self.dirty.set(i, true);
    }

    /// A copy of the slots' values and of their dirty flags.
    pub fn snapshot(&self) -> (r: (Vec<i64>, Vec<bool>))
        ensures
            r.0@ == self.values(),
            r.1@ == self.dirty_flags(),
    {
        let mut ints: Vec<i64> = Vec::new();
        let mut flags: Vec<bool> = Vec::new();
        let mut i: usize = 0;
        while i < self.ints.len()
            invariant
                i <= self.ints@.len(),
                ints@ == self.ints@.take(i as int),
            decreases self.ints@.len() - i,
        {
            ints.push(self.ints[i]);
            i = i + 1;
            assert(ints@ =~= self.ints@.take(i as int));
        }
        let mut j: usize = 0;
        while j < self.dirty.len()
            invariant
                j <= self.dirty@.len(),
                flags@ == self.dirty@.take(j as int),
            decreases self.dirty@.len() - j,
        {
            flags.push(self.dirty[j]);
            j = j + 1;
            assert(flags@ =~= self.dirty@.take(j as int));
        }
        assert(ints@ =~= self.ints@);
        assert(flags@ =~= self.dirty@);
        (ints, flags)
    }

    /// The dirty slots in ascending order; afterwards no slot is dirty.
    pub fn drain_dirty(&mut self) -> (slots: Vec<SlotId>)
        requires
            old(self).wf(),
        ensures
            final(self).wf(),
            slots@ == dirty_slots(old(self).dirty_flags()),
            final(self).dirty_flags() == no_dirty(old(self).values().len()),
            final(self).values() == old(self).values(),
            final(self).string_values() == old(self).string_values(),
            final(self).bool_values() == old(self).bool_values(),
    {
        let mut slots: Vec<SlotId> = Vec::new();
        let mut i: usize = 0;
        while i < self.dirty.len()
            invariant
                self.wf(),
                i <= self.dirty@.len(),
                self.dirty@ == old(self).dirty@,
                self.ints@ == old(self).values(),
                self.strings@ == old(self).strings@,
                self.bools@ == old(self).bools@,
                slots@ == dirty_slots(self.dirty@.take(i as int)),
            decreases self.dirty@.len() - i,
        {
            assert(self.dirty@.take(i + 1).drop_last() =~= self.dirty@.take(i as int));
            if self.dirty[i] {
                slots.push(SlotId(i as u32));
            }
            i = i + 1;
        }
        assert(self.dirty@.take(i as int) =~= self.dirty@);
        let mut j: usize = 0;
        while j < self.dirty.len()
            invariant
                self.wf(),
                j <= self.dirty@.len(),
                self.dirty@.len() == old(self).dirty@.len(),
                forall|k: int| 0 <= k < j ==> self.dirty@[k] == false,
                self.ints@ == old(self).values(),
                self.strings@ == old(self).strings@,
                self.bools@ == old(self).bools@,
            decreases self.dirty@.len() - j,
        {
            self.dirty.set(j, false);
            j = j + 1;
        }
        assert(self.dirty@ =~= no_dirty(old(self).values().len()));
        slots
    }
}

/// No slot is listed twice by a drain, and a slot is listed exactly when it
/// was marked.
pub proof fn lemma_dirty_slots_exact(dirty: Seq<bool>)
    requires
        dirty.len() <= u32::MAX,
    ensures
        forall|a: int, b: int|
            0 <= a < b < dirty_slots(dirty).len() ==> dirty_slots(dirty)[a].0 < dirty_slots(dirty)[b].0,
        forall|a: int|
            0 <= a < dirty_slots(dirty).len() ==> dirty_slots(dirty)[a].0 < dirty.len() && dirty[
                dirty_slots(dirty)[a].0 as int
            ],
        forall|s: int| 0 <= s < dirty.len() && #[trigger] dirty[s] ==> dirty_slots(dirty).contains(SlotId(s as u32)),
    decreases dirty.len(),
{
    if dirty.len() > 0 {
        let init = dirty.drop_last();
        lemma_dirty_slots_exact(init);
        let d = dirty_slots(dirty);
        let di = dirty_slots(init);
        assert forall|a: int| 0 <= a < di.len() implies d[a] == di[a] by {}
        assert forall|s: int| 0 <= s < dirty.len() && #[trigger] dirty[s] implies d.contains(SlotId(s as u32)) by {
            if s < init.len() {
                assert(init[s] == dirty[s]);
                let k = choose|k: int| 0 <= k < di.len() && di[k] == SlotId(s as u32);
                assert(d[k] == SlotId(s as u32));
            } else {
                assert(d[di.len() as int] == SlotId(s as u32));
            }
        }
        assert forall|a: int| 0 <= a < d.len() implies d[a].0 < dirty.len() && dirty[d[a].0 as int] by {
            if a < di.len() {
                assert(init[di[a].0 as int] == dirty[di[a].0 as int]);
            }
        }
    }
}

/// Right after a drain, a second drain finds nothing.
pub proof fn lemma_drain_twice_empty(n: nat)
    ensures
        dirty_slots(no_dirty(n)) == Seq::<SlotId>::empty(),
    decreases n,
{
    if n > 0 {
        lemma_drain_twice_empty((n - 1) as nat);
        assert(no_dirty(n).drop_last() =~= no_dirty((n - 1) as nat));
    }
}

} // verus!
