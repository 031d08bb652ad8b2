//! Storage: rack cells placed on floor tiles. Each cell holds a fixed number
//! of items of any kind. Rack tiles stay walkable — crew stand on them to store.

use crate::items::{kind_index, ItemKind};
use crate::text::{dec, push_chars, push_dec, string_of};
use vstd::prelude::*;

verus! {

/// Items a single rack cell can hold.
pub const RACK_CAPACITY: u32 = 4;

pub struct StorageCell {
    pub capacity: u32,
    /// Per-kind counts, indexed by `ItemKind::index`.
    pub counts: [u32; 3],
}

impl StorageCell {
    /// Items currently stored, all kinds together.
    pub open spec fn spec_stored(&self) -> int {
        self.counts@[0] + self.counts@[1] + self.counts@[2]
    }

    /// Free slots (never negative).
    pub open spec fn spec_free(&self) -> int {
        if self.spec_stored() >= self.capacity {
            0
        } else {
            self.capacity - self.spec_stored()
        }
    }
}

impl Default for StorageCell {
    fn default() -> (r: Self)
        ensures
            r.capacity == RACK_CAPACITY,
            r.counts@ == seq![0u32, 0u32, 0u32],
    {
        StorageCell { capacity: RACK_CAPACITY, counts: [0, 0, 0] }
    }
}

impl StorageCell {
    pub fn stored(&self) -> (r: u32)
        requires
            self.spec_stored() <= u32::MAX,
        ensures
            r == self.spec_stored(),
    {
        self.counts[0] + self.counts[1] + self.counts[2]
    }

    pub fn free(&self) -> (r: u32)
        requires
            self.spec_stored() <= u32::MAX,
        ensures
            r == self.spec_free(),
    {
        self.capacity.saturating_sub(self.stored())
    }

    pub fn has_space(&self) -> (r: bool)
        requires
            self.spec_stored() <= u32::MAX,
        ensures
            r == (self.spec_stored() < self.capacity),
    {
        self.free() > 0
    }

    /// Store one item of `kind`; returns false when the rack is already full
    /// (and then nothing changes).
    pub fn try_add(&mut self, kind: ItemKind) -> (r: bool)
        requires
            old(self).spec_stored() <= u32::MAX,
        ensures
            r == (old(self).spec_stored() < old(self).capacity),
            final(self).capacity == old(self).capacity,
            r ==> final(self).counts@ == old(self).counts@.update(
                kind_index(kind),
                (old(self).counts@[kind_index(kind)] + 1) as u32,
            ),
            !r ==> final(self).counts@ == old(self).counts@,
            final(self).spec_stored() == old(self).spec_stored() + (if r { 1int } else { 0int }),
    {
        if !self.has_space() {
            return false;
        }
        let i = kind.index();
        self.counts[i] = self.counts[i] + 1;
        true
    }

    /// A rack pre-stocked with `n` items of `kind`.
    pub fn with_stock(kind: ItemKind, n: u32) -> (r: Self)
        ensures
            r.capacity == RACK_CAPACITY,
            r.counts@ == seq![0u32, 0u32, 0u32].update(kind_index(kind), n),
    {
        let mut counts: [u32; 3] = [0, 0, 0];
        counts[kind.index()] = n;
        assert(counts@ =~= seq![0u32, 0u32, 0u32].update(kind_index(kind), n));
        StorageCell { capacity: RACK_CAPACITY, counts }
    }

    /// The rack can take one more item of `kind` (any kind fits while there
    /// is space).
    pub fn can_take(&self, kind: ItemKind) -> (r: bool)
        requires
            self.spec_stored() <= u32::MAX,
        ensures
            r == (self.spec_stored() < self.capacity),
    {
        self.has_space()
    }

    /// The rack holds at least one item of `kind`.
    pub fn has_kind(&self, kind: ItemKind) -> (r: bool)
        ensures
            r == (self.counts@[kind_index(kind)] > 0),
    {
        self.counts[kind.index()] > 0
    }

    /// Take one item of `kind` out; false (and no change) when there is none.
    pub fn take(&mut self, kind: ItemKind) -> (r: bool)
        ensures
            r == (old(self).counts@[kind_index(kind)] > 0),
            final(self).capacity == old(self).capacity,
            r ==> final(self).counts@ == old(self).counts@.update(
                kind_index(kind),
                (old(self).counts@[kind_index(kind)] - 1) as u32,
            ),
            !r ==> final(self).counts@ == old(self).counts@,
    {
        let i = kind.index();
        if self.counts[i] == 0 {
            return false;
        }
        self.counts[i] = self.counts[i] - 1;
        true
    }

    /// `stored/capacity`, e.g. `4/4`.
    pub fn label(&self) -> (r: String)
        requires
            self.spec_stored() <= u32::MAX,
        ensures
            r@ == dec(self.spec_stored() as nat) + seq!['/'] + dec(self.capacity as nat),
    {
        let mut out: Vec<char> = Vec::new();
        push_dec(&mut out, self.stored() as u64);
        push_chars(&mut out, &['/']);
        push_dec(&mut out, self.capacity as u64);
        string_of(out)
    }
}

/// Adding to a rack never pushes it past its capacity: a rack within its
/// capacity stays within it after any `try_add`.
pub proof fn lemma_try_add_keeps_capacity(before: int, cap: int, added: bool)
    requires
        0 <= before <= cap,
        added == (before < cap),
    ensures
        before + (if added { 1int } else { 0int }) <= cap,
{
}

} // verus!
