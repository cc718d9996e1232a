//! Slots with a generation and a liveness bit: what both stores keep per row.
//!
//! A slot knows neither who lives in it nor how ids map to slots. It records the generation
//! of its current holder and whether it is occupied; advancing the generation is the caller's
//! business.
use vstd::prelude::*;

verus! {

/// The generation of a slot that never had a holder.
pub const VACANT: u64 = u64::MAX;

/// One slot.
#[derive(Clone, Copy, Debug, PartialEq, Eq, Structural)]
pub struct Slot {
    pub generation: u64,
    pub live: bool,
}

/// A table of slots, addressed by number.
#[derive(Debug)]
pub struct GenSlots {
    slots: Vec<Slot>,
}

impl View for GenSlots {
    type V = Seq<Slot>;

    closed spec fn view(&self) -> Seq<Slot> {
        self.slots@
    }
}

/// The slot exists, is occupied, and its holder has the generation asked for.
pub open spec fn slot_matches(slots: Seq<Slot>, slot: int, generation: u64) -> bool {
    0 <= slot < slots.len() && slots[slot].live && slots[slot].generation == generation
}

/// The occupied slots among the first `n`, in order, with their generations.
pub open spec fn live_upto(slots: Seq<Slot>, n: int) -> Seq<(usize, u64)>
    decreases n,
{
    if n <= 0 {
        Seq::empty()
    } else if slots[n - 1].live {
        live_upto(slots, n - 1).push(((n - 1) as usize, slots[n - 1].generation))
    } else {
        live_upto(slots, n - 1)
    }
}

impl GenSlots {
    pub fn new() -> (r: GenSlots)
        ensures
            r@ == Seq::<Slot>::empty(),
    {
        GenSlots { slots: Vec::new() }
    }

    /// The number of slots, the empty ones included.
    pub fn len(&self) -> (r: usize)
        ensures
            r == self@.len(),
    {
        self.slots.len()
    }

    /// The generation of the slot's holder.
    pub fn generation(&self, slot: usize) -> (r: u64)
        requires
            slot < self@.len(),
        ensures
            r == self@[slot as int].generation,
    {
        self.slots[slot].generation
    }

    pub fn is_live(&self, slot: usize) -> (r: bool)
        requires
            slot < self@.len(),
        ensures
            r == self@[slot as int].live,
    {
        self.slots[slot].live
    }

    /// Resolves a reference: out of range, empty, or another generation gives `false`.
    pub fn matches(&self, slot: usize, generation: u64) -> (r: bool)
        ensures
            r == slot_matches(self@, slot as int, generation),
    {
        slot < self.slots.len() && self.slots[slot].live && self.slots[slot].generation
            == generation
    }

    /// Appends an occupied slot and returns its number.
    pub fn push_live(&mut self, generation: u64) -> (r: usize)
        ensures
            r == old(self)@.len(),
            final(self)@ == old(self)@.push(Slot { generation, live: true }),
    {
        let n = self.slots.len();
        self.slots.push(Slot { generation, live: true });
        n
    }

    /// Occupies an existing slot.
    pub fn activate(&mut self, slot: usize, generation: u64)
        requires
            slot < old(self)@.len(),
        ensures
            final(self)@ == old(self)@.update(slot as int, Slot { generation, live: true }),
    {
        self.slots.set(slot, Slot { generation, live: true });
    }

    /// Frees a slot. It keeps its place and its generation.
    pub fn kill(&mut self, slot: usize)
        requires
            slot < old(self)@.len(),
        ensures
            final(self)@ == old(self)@.update(
                slot as int,
                Slot { generation: old(self)@[slot as int].generation, live: false },
            ),
    {
        let generation = self.slots[slot].generation;
        self.slots.set(slot, Slot { generation, live: false });
    }

    /// Moves the last slot into `slot` and shortens the table by one.
    pub fn swap_remove(&mut self, slot: usize)
        requires
            slot < old(self)@.len(),
        ensures
            final(self)@ == old(self)@.update(slot as int, old(self)@.last()).drop_last(),
    {
        self.slots.swap_remove(slot);
    }

    /// Grows to at least `n` slots. The new ones are empty.
    pub fn grow_to(&mut self, n: usize)
        ensures
            final(self)@ == (if n > old(self)@.len() {
                old(self)@ + Seq::new(
                    (n - old(self)@.len()) as nat,
                    |i: int| Slot { generation: VACANT, live: false },
                )
            } else {
                old(self)@
            }),
    {
        let ghost before = self@;
        while self.slots.len() < n
            invariant
                before.len() <= self@.len(),
                n > before.len() ==> self@.len() <= n,
                n <= before.len() ==> self@ == before,
                self@ =~= before + Seq::new(
                    (self@.len() - before.len()) as nat,
                    |i: int| Slot { generation: VACANT, live: false },
                ),
            decreases n - self@.len(),
        {
            self.slots.push(Slot { generation: VACANT, live: false });
        }
    }

    /// Every occupied slot in order, with its generation.
    pub fn live_slots(&self) -> (r: Vec<(usize, u64)>)
        ensures
            r@ == live_upto(self@, self@.len() as int),
    {
        let mut out: Vec<(usize, u64)> = Vec::new();
        let mut i: usize = 0;
        while i < self.slots.len()
            invariant
                i <= self@.len(),
                out@ == live_upto(self@, i as int),
            decreases self@.len() - i,
        {
            if self.slots[i].live {
                out.push((i, self.slots[i].generation));
            }
            i = i + 1;
        }
        out
    }
}

impl Clone for GenSlots {
    fn clone(&self) -> (r: GenSlots)
        ensures
            r@ == self@,
    {
        let mut slots: Vec<Slot> = Vec::new();
        let mut i: usize = 0;
        while i < self.slots.len()
            invariant
                i <= self@.len(),
                slots@ == self@.take(i as int),
            decreases self@.len() - i,
        {
            slots.push(self.slots[i]);
            i = i + 1;
            assert(slots@ =~= self@.take(i as int));
        }
        assert(slots@ =~= self@);
        GenSlots { slots }
    }
}

/// Exactly the occupied slots are listed, each once and in order.
pub proof fn law_live_slots_are_the_occupied_ones(slots: Seq<Slot>, n: int)
    requires
        0 <= n <= slots.len() <= usize::MAX,
    ensures
        forall|k: int|
            0 <= k < n && (#[trigger] slots[k]).live ==> live_upto(slots, n).contains(
                (k as usize, slots[k].generation),
            ),
        forall|i: int|
            0 <= i < live_upto(slots, n).len() ==> {
                let e = #[trigger] live_upto(slots, n)[i];
                e.0 < n && slots[e.0 as int].live && slots[e.0 as int].generation == e.1
            },
        forall|i: int, j: int|
            0 <= i < j < live_upto(slots, n).len() ==> (#[trigger] live_upto(slots, n)[i]).0 < (
            #[trigger] live_upto(slots, n)[j]).0,
    decreases n,
{
    if n > 0 {
        law_live_slots_are_the_occupied_ones(slots, n - 1);
        let before = live_upto(slots, n - 1);
        let after = live_upto(slots, n);
        assert forall|k: int| 0 <= k < n && (#[trigger] slots[k]).live implies after.contains(
            (k as usize, slots[k].generation),
        ) by {
            let e = (k as usize, slots[k].generation);
            if k < n - 1 {
                assert(before.contains(e));
                let i = choose|i: int| 0 <= i < before.len() && before[i] == e;
                assert(after[i] == e);
            } else {
                assert(after[before.len() as int] == e);
            }
        }
    }
}

/// A freed slot matches no generation, and a slot taken again matches its new one only.
pub proof fn law_no_stale_match(slots: Seq<Slot>, slot: int, old_gen: u64, new_gen: u64)
    requires
        0 <= slot < slots.len(),
        old_gen != new_gen,
    ensures
        forall|g: u64|
            !slot_matches(
                slots.update(slot, Slot { generation: slots[slot].generation, live: false }),
                slot,
                g,
            ),
        slot_matches(
            slots.update(slot, Slot { generation: new_gen, live: true }),
            slot,
            new_gen,
        ),
        !slot_matches(
            slots.update(slot, Slot { generation: new_gen, live: true }),
            slot,
            old_gen,
        ),
{
}

}
