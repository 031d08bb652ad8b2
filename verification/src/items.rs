//! Ground items: cargo the player wants hauled into storage.

use vstd::prelude::*;

verus! {

/// The three kinds of cargo the ship knows about.
#[derive(Clone, Copy, PartialEq, Eq, Structural, Debug, Hash)]
pub enum ItemKind {
    Crate,
    Ore,
    Part,
}

/// Slot of each kind in the per-kind count arrays (`[crate, ore, part]`).
pub open spec fn kind_index(k: ItemKind) -> int {
    match k {
        ItemKind::Crate => 0,
        ItemKind::Ore => 1,
        ItemKind::Part => 2,
    }
}

/// The kind for a count slot; inverse of `kind_index` on `0..3`.
pub open spec fn kind_at(i: int) -> ItemKind {
    if i == 0 {
        ItemKind::Crate
    } else if i == 1 {
        ItemKind::Ore
    } else {
        ItemKind::Part
    }
}

/// Player-facing name of each kind.
pub open spec fn kind_label(k: ItemKind) -> Seq<char> {
    match k {
        ItemKind::Crate => "Cargo Crate"@,
        ItemKind::Ore => "Asteroid Ore"@,
        ItemKind::Part => "Machinery Part"@,
    }
}

impl ItemKind {
    /// Every kind, in count-slot order.
    pub const ALL: [ItemKind; 3] = [ItemKind::Crate, ItemKind::Ore, ItemKind::Part];

    pub fn label(&self) -> (r: &'static str)
        ensures
            r@ == kind_label(*self),
    {
        match self {
            ItemKind::Crate => "Cargo Crate",
            ItemKind::Ore => "Asteroid Ore",
            ItemKind::Part => "Machinery Part",
        }
    }

    pub fn index(&self) -> (r: usize)
        ensures
            r == kind_index(*self),
            r < 3,
    {
        match self {
            ItemKind::Crate => 0,
            ItemKind::Ore => 1,
            ItemKind::Part => 2,
        }
    }

    /// The kind stored in count slot `i`.
    pub fn from_index(i: usize) -> (r: ItemKind)
        requires
            i < 3,
        ensures
            r == kind_at(i as int),
            kind_index(r) == i,
    {
        if i == 0 {
            ItemKind::Crate
        } else if i == 1 {
            ItemKind::Ore
        } else {
            ItemKind::Part
        }
    }
}

/// The item kind a layout digit stands for (`'2'` ore, `'3'` part, any
/// other character a crate).
pub open spec fn kind_of_char(c: u8) -> ItemKind {
    if c == 50u8 {
        ItemKind::Ore
    } else if c == 51u8 {
        ItemKind::Part
    } else {
        ItemKind::Crate
    }
}

/// Layout character to item kind (see `kind_of_char`).
pub fn item_kind_of_char(c: u8) -> (r: ItemKind)
    ensures
        r == kind_of_char(c),
{
    if c == 50u8 {
        ItemKind::Ore
    } else if c == 51u8 {
        ItemKind::Part
    } else {
        ItemKind::Crate
    }
}

/// Counting index and kind are inverse bijections on the three slots.
pub proof fn lemma_kind_index_roundtrip(k: ItemKind, i: int)
    ensures
        kind_at(kind_index(k)) == k,
        0 <= i < 3 ==> kind_index(kind_at(i)) == i,
{
}

} // verus!
