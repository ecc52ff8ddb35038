//! The storage layout model: a contract's persistent storage described as an
//! ordered sequence of slot entries, addressed positionally (by slot index and
//! byte offset), never by variable name.

use vstd::prelude::*;

verus! {

/// Category of a storage variable's declared type. Value categories carry
/// signedness and encoding in the variant itself; reference categories
/// (mapping, dynamic array, dynamic bytes/string) are compared by kind only.
#[derive(Clone, Copy, PartialEq, Eq, Structural, Debug)]
pub enum TypeDesc {
    /// 20-byte account address.
    Address,
    /// Single-byte boolean.
    Bool,
    /// Unsigned integer of the entry's byte width.
    Unsigned,
    /// Signed (two's complement) integer of the entry's byte width.
    Signed,
    /// Fixed-size byte string of the entry's byte width.
    FixedBytes,
    /// Key-value mapping; occupies a full marker slot.
    Mapping,
    /// Dynamically sized array; occupies a full marker slot.
    DynamicArray,
    /// Dynamically sized bytes or string; occupies a full marker slot.
    DynamicBytes,
}

/// One storage variable: where it lives (slot index and byte offset inside the
/// 32-byte slot), how many bytes it takes, its type category, and its source
/// name. The name plays no part in layout compatibility.
#[derive(Clone, Debug)]
pub struct Slot {
    /// Index of the 32-byte slot this entry starts in.
    pub slot: u64,
    /// Byte offset of the entry inside its slot.
    pub offset: u8,
    /// Number of bytes the entry occupies.
    pub width: u8,
    /// Type category of the variable.
    pub ty: TypeDesc,
    /// Source-level variable name, as identifier bytes.
    pub name: Vec<u8>,
}

/// A single entry is well formed: at least one byte wide, and contained in
/// its 32-byte slot.
pub open spec fn slot_entry_wf(s: Slot) -> bool {
    &&& 1 <= s.width
    &&& s.offset + s.width <= 32
}

/// Entry `a` lies strictly before entry `b` in the flat slot space, with no
/// overlap: either in an earlier slot, or earlier in the same slot with its
/// bytes ending at or before `b` begins.
pub open spec fn slot_precedes(a: Slot, b: Slot) -> bool {
    ||| a.slot < b.slot
    ||| (a.slot == b.slot && a.offset + a.width <= b.offset)
}

/// A layout is well formed: every entry is well formed, and the entries are
/// totally ordered by (slot index, offset) with no two overlapping.
pub open spec fn layout_wf(slots: Seq<Slot>) -> bool {
    &&& forall|i: int| 0 <= i < slots.len() ==> slot_entry_wf(#[trigger] slots[i])
    &&& forall|i: int, j: int|
        0 <= i < j < slots.len() ==> slot_precedes(#[trigger] slots[i], #[trigger] slots[j])
}

/// Why a slot list was rejected as malformed layout metadata.
#[derive(Clone, Copy, PartialEq, Eq, Structural, Debug)]
pub enum LayoutError {
    /// An entry is zero-width or runs past the end of its 32-byte slot.
    MalformedEntry,
    /// Two adjacent entries are out of (slot, offset) order or overlap.
    OutOfOrderOrOverlapping,
}

/// A contract's storage layout: slot entries in (slot index, offset) order.
#[derive(Clone, Debug)]
pub struct StorageLayout {
    /// The entries, in flat slot-space order.
    pub slots: Vec<Slot>,
}

/// `slot_precedes` is transitive across a well-formed middle entry.
proof fn lemma_precedes_trans(a: Slot, b: Slot, c: Slot)
    requires
        slot_entry_wf(b),
        slot_precedes(a, b),
        slot_precedes(b, c),
    ensures
        slot_precedes(a, c),
{
}

/// Adjacent ordering extends to any pair of indices.
proof fn lemma_chain_precedes(slots: Seq<Slot>, i: int, j: int)
    requires
        forall|k: int| 0 <= k < slots.len() ==> slot_entry_wf(#[trigger] slots[k]),
        forall|k: int| 1 <= k < slots.len() ==> slot_precedes(#[trigger] slots[k - 1], slots[k]),
        0 <= i < j < slots.len(),
    ensures
        slot_precedes(slots[i], slots[j]),
    decreases j - i,
{
    if i + 1 < j {
        lemma_chain_precedes(slots, i, j - 1);
        lemma_precedes_trans(slots[i], slots[j - 1], slots[j]);
    }
}

/// In a well-formed layout no two entries share a position: the entries'
/// (slot index, offset) pairs are pairwise distinct.
pub proof fn lemma_positions_unique(slots: Seq<Slot>, i: int, j: int)
    requires
        layout_wf(slots),
        0 <= i < slots.len(),
        0 <= j < slots.len(),
        i != j,
    ensures
        !(slots[i].slot == slots[j].slot && slots[i].offset == slots[j].offset),
{
}

impl StorageLayout {
    /// The layout's well-formedness invariant.
    pub open spec fn wf(self) -> bool {
        layout_wf(self.slots@)
    }

    /// Validates storage layout metadata: accepts the entry list exactly when
    /// every entry fits its slot and the list is ordered and overlap-free.
    pub fn new(slots: Vec<Slot>) -> (r: Result<StorageLayout, LayoutError>)
        ensures
            match r {
                Ok(l) => l.slots == slots && l.wf(),
                Err(LayoutError::MalformedEntry) => exists|i: int|
                    0 <= i < slots@.len() && !slot_entry_wf(slots@[i]),
                Err(LayoutError::OutOfOrderOrOverlapping) => !layout_wf(slots@),
            },
    {
        let n = slots.len();
        let mut i: usize = 0;
        while i < n
            invariant
                n == slots@.len(),
                i <= n,
                forall|k: int| 0 <= k < i ==> slot_entry_wf(#[trigger] slots@[k]),
            decreases n - i,
        {
            let s = &slots[i];
            if !(1 <= s.width && (s.offset as u32) + (s.width as u32) <= 32) {
                return Err(LayoutError::MalformedEntry);
            }
            i += 1;
        }
        let mut j: usize = 1;
        while j < n
            invariant
                n == slots@.len(),
                1 <= j || n == 0,
                j <= n + 1,
                forall|k: int| 0 <= k < n ==> slot_entry_wf(#[trigger] slots@[k]),
                forall|k: int| 1 <= k < j ==> slot_precedes(#[trigger] slots@[k - 1], slots@[k]),
            decreases n - j,
        {
            let a = &slots[j - 1];
            let b = &slots[j];
            let ordered = a.slot < b.slot
                || (a.slot == b.slot && (a.offset as u32) + (a.width as u32) <= b.offset as u32);
            if !ordered {
                assert(!slot_precedes(slots@[j - 1], slots@[j as int]));
                assert(!layout_wf(slots@));
                return Err(LayoutError::OutOfOrderOrOverlapping);
            }
            j += 1;
        }
        proof {
            assert forall|p: int, q: int| 0 <= p < q < slots@.len() implies slot_precedes(
                #[trigger] slots@[p],
                #[trigger] slots@[q],
            ) by {
                lemma_chain_precedes(slots@, p, q);
            }
        }
        Ok(StorageLayout { slots })
    }
}

} // verus!
