//! The storage-compatibility checker: decides whether a recompiled layout can
//! safely replace the original deployed layout without misreading existing
//! on-chain values. Storage is addressed by position, so the check compares
//! (slot index, offset, width, type category) and ignores variable names.

use vstd::prelude::*;

use crate::layout::{layout_wf, lemma_positions_unique, slot_precedes, Slot, StorageLayout};

verus! {

/// Why a candidate layout cannot replace the original.
#[derive(Clone, Copy, PartialEq, Eq, Structural, Debug)]
pub enum IncompatibilityReason {
    /// The entry at this position changed byte width or type category.
    TypeOrWidthChanged,
    /// An original entry's position no longer exists in the candidate: the
    /// variable was removed, or earlier repacking shifted it.
    SlotRemovedOrShifted,
    /// The candidate adds an entry at or before the original's last slot
    /// index instead of appending past it.
    SlotInsertedBeforeExisting,
}

/// One compatibility violation: the slot index it concerns and the reason.
#[derive(Clone, Copy, PartialEq, Eq, Structural, Debug)]
pub struct Finding {
    /// Slot index of the offending entry.
    pub slot: u64,
    /// What went wrong at that slot.
    pub reason: IncompatibilityReason,
}

/// Outcome of the compatibility check: compatible, or the full ordered list
/// of violations (never truncated).
#[derive(Clone, PartialEq, Eq, Debug)]
pub enum CompatibilityVerdict {
    /// The candidate layout may replace the original.
    Compatible,
    /// The candidate layout may not; every violation is listed.
    Incompatible(Vec<Finding>),
}

/// Two entries claim the same position in the flat slot space.
pub open spec fn same_position(a: Slot, b: Slot) -> bool {
    a.slot == b.slot && a.offset == b.offset
}

/// Two entries are interchangeable for storage reads: same position, same
/// byte width, same type category. Names play no part.
pub open spec fn entry_matches(a: Slot, b: Slot) -> bool {
    same_position(a, b) && a.width == b.width && a.ty == b.ty
}

/// Two entries have the same layout-relevant shape (they may differ in name).
pub open spec fn same_shape(a: Slot, b: Slot) -> bool {
    a.slot == b.slot && a.offset == b.offset && a.width == b.width && a.ty == b.ty
}

/// Pointwise `same_shape` over whole layouts: equal up to renaming.
pub open spec fn same_shapes(x: Seq<Slot>, y: Seq<Slot>) -> bool {
    x.len() == y.len() && forall|i: int| 0 <= i < x.len() ==> same_shape(#[trigger] x[i], y[i])
}

/// Some entry of `c` occupies the same position as `s`.
pub open spec fn has_position(c: Seq<Slot>, s: Slot) -> bool {
    exists|i: int| 0 <= i < c.len() && same_position(#[trigger] c[i], s)
}

/// Some entry of `c` occupies the same position as `s` with the same width
/// and type category.
pub open spec fn has_match(c: Seq<Slot>, s: Slot) -> bool {
    exists|i: int| 0 <= i < c.len() && entry_matches(#[trigger] c[i], s)
}

/// Entry `t` lies strictly after every slot index used by layout `o`:
/// pure appension.
pub open spec fn appended_after(o: Seq<Slot>, t: Slot) -> bool {
    forall|i: int| 0 <= i < o.len() ==> (#[trigger] o[i]).slot < t.slot
}

/// The finding, if any, that an original entry `s` produces against the
/// candidate layout `c`.
pub open spec fn original_finding(c: Seq<Slot>, s: Slot) -> Option<Finding> {
    if !has_position(c, s) {
        Some(Finding { slot: s.slot, reason: IncompatibilityReason::SlotRemovedOrShifted })
    } else if !has_match(c, s) {
        Some(Finding { slot: s.slot, reason: IncompatibilityReason::TypeOrWidthChanged })
    } else {
        None
    }
}

/// The finding, if any, that a candidate entry `t` produces against the
/// original layout `o`: a new position is only allowed strictly past the
/// original's last slot index.
pub open spec fn insertion_finding(o: Seq<Slot>, t: Slot) -> Option<Finding> {
    if !has_position(o, t) && !appended_after(o, t) {
        Some(Finding { slot: t.slot, reason: IncompatibilityReason::SlotInsertedBeforeExisting })
    } else {
        None
    }
}

/// A finding option as a sequence of zero or one findings.
pub open spec fn opt_finding_seq(f: Option<Finding>) -> Seq<Finding> {
    match f {
        Some(g) => seq![g],
        None => Seq::empty(),
    }
}

/// Entry `a`'s position is at or before entry `b`'s in the flat slot space.
pub open spec fn pos_le(a: Slot, b: Slot) -> bool {
    a.slot < b.slot || (a.slot == b.slot && a.offset <= b.offset)
}

/// The merge-walk over both layouts from original index `i` and candidate
/// index `t` on: both layouts advance together in (slot index, offset)
/// order, so the findings come out ordered by the violating entry's
/// position. An original entry contributes its removal or change finding; a
/// candidate entry contributes its insertion finding; on equal positions the
/// original entry goes first (the candidate entry then has a position in the
/// original and contributes nothing).
pub open spec fn merge_findings(o: Seq<Slot>, c: Seq<Slot>, i: int, t: int) -> Seq<Finding>
    decreases o.len() - i, c.len() - t,
{
    if i < 0 || t < 0 {
        Seq::empty()
    } else if i >= o.len() && t >= c.len() {
        Seq::empty()
    } else if t >= c.len() || (i < o.len() && pos_le(o[i], c[t])) {
        opt_finding_seq(original_finding(c, o[i])) + merge_findings(o, c, i + 1, t)
    } else {
        opt_finding_seq(insertion_finding(o, c[t])) + merge_findings(o, c, i, t + 1)
    }
}

/// The full ordered finding list of the check: the merge-walk over both
/// whole layouts, in position order.
pub open spec fn spec_findings(o: Seq<Slot>, c: Seq<Slot>) -> Seq<Finding> {
    merge_findings(o, c, 0, 0)
}

/// If no remaining entry on either side produces a finding, the merge-walk
/// produces none.
proof fn lemma_merge_all_none(o: Seq<Slot>, c: Seq<Slot>, i: int, t: int)
    requires
        0 <= i,
        0 <= t,
        forall|k: int| i <= k < o.len() ==> original_finding(c, #[trigger] o[k]) is None,
        forall|k: int| t <= k < c.len() ==> insertion_finding(o, #[trigger] c[k]) is None,
    ensures
        merge_findings(o, c, i, t).len() == 0,
    decreases o.len() - i, c.len() - t,
{
    if i >= o.len() && t >= c.len() {
    } else if t >= c.len() || (i < o.len() && pos_le(o[i], c[t])) {
        lemma_merge_all_none(o, c, i + 1, t);
    } else {
        lemma_merge_all_none(o, c, i, t + 1);
    }
}

/// A finding produced by original entry `k` appears in the merge-walk from
/// any point at or before `k`.
proof fn lemma_merge_contains_original(o: Seq<Slot>, c: Seq<Slot>, i: int, t: int, k: int, f: Finding)
    requires
        0 <= i <= k < o.len(),
        0 <= t,
        original_finding(c, o[k]) == Some(f),
    ensures
        merge_findings(o, c, i, t).contains(f),
    decreases o.len() - i, c.len() - t,
{
    let m = merge_findings(o, c, i, t);
    if t >= c.len() || (i < o.len() && pos_le(o[i], c[t])) {
        if i == k {
            assert(m[0] == f);
        } else {
            lemma_merge_contains_original(o, c, i + 1, t, k, f);
            let rest = merge_findings(o, c, i + 1, t);
            let j = choose|j: int| 0 <= j < rest.len() && rest[j] == f;
            assert(m[opt_finding_seq(original_finding(c, o[i])).len() + j] == f);
        }
    } else {
        lemma_merge_contains_original(o, c, i, t + 1, k, f);
        let rest = merge_findings(o, c, i, t + 1);
        let j = choose|j: int| 0 <= j < rest.len() && rest[j] == f;
        assert(m[opt_finding_seq(insertion_finding(o, c[t])).len() + j] == f);
    }
}

/// A finding produced by candidate entry `k` appears in the merge-walk from
/// any point at or before `k`.
proof fn lemma_merge_contains_insertion(o: Seq<Slot>, c: Seq<Slot>, i: int, t: int, k: int, f: Finding)
    requires
        0 <= i,
        0 <= t <= k < c.len(),
        insertion_finding(o, c[k]) == Some(f),
    ensures
        merge_findings(o, c, i, t).contains(f),
    decreases o.len() - i, c.len() - t,
{
    let m = merge_findings(o, c, i, t);
    if t >= c.len() || (i < o.len() && pos_le(o[i], c[t])) {
        lemma_merge_contains_insertion(o, c, i + 1, t, k, f);
        let rest = merge_findings(o, c, i + 1, t);
        let j = choose|j: int| 0 <= j < rest.len() && rest[j] == f;
        assert(m[opt_finding_seq(original_finding(c, o[i])).len() + j] == f);
    } else {
        if t == k {
            assert(m[0] == f);
        } else {
            lemma_merge_contains_insertion(o, c, i, t + 1, k, f);
            let rest = merge_findings(o, c, i, t + 1);
            let j = choose|j: int| 0 <= j < rest.len() && rest[j] == f;
            assert(m[opt_finding_seq(insertion_finding(o, c[t])).len() + j] == f);
        }
    }
}

/// Law: a candidate that keeps every original entry's position, width and
/// type category — renaming freely — and adds entries only strictly past the
/// original's last slot index is compatible: the check finds nothing.
pub proof fn lemma_append_only_compatible(o: Seq<Slot>, c: Seq<Slot>)
    requires
        o.len() <= c.len(),
        forall|i: int| 0 <= i < o.len() ==> same_shape(#[trigger] o[i], c[i]),
        forall|i: int| o.len() <= i < c.len() ==> appended_after(o, #[trigger] c[i]),
    ensures
        spec_findings(o, c).len() == 0,
{
    assert forall|k: int| 0 <= k < o.len() implies original_finding(c, #[trigger] o[k]) is None by {
        assert(entry_matches(c[k], o[k]));
        assert(has_match(c, o[k]));
        assert(same_position(c[k], o[k]));
        assert(has_position(c, o[k]));
    }
    assert forall|k: int| 0 <= k < c.len() implies insertion_finding(o, #[trigger] c[k]) is None by {
        if k < o.len() {
            assert(same_position(o[k], c[k]));
            assert(has_position(o, c[k]));
        }
    }
    lemma_merge_all_none(o, c, 0, 0);
}

/// Law: when an original entry has no interchangeable entry in the candidate
/// — its position is gone, or the entry there changed width or type — the
/// finding list is non-empty and holds a finding naming that entry's slot.
pub proof fn lemma_changed_entry_reported(o: Seq<Slot>, c: Seq<Slot>, k: int)
    requires
        0 <= k < o.len(),
        !has_match(c, o[k]),
    ensures
        spec_findings(o, c).len() > 0,
        exists|j: int|
            0 <= j < spec_findings(o, c).len() && (#[trigger] spec_findings(o, c)[j]).slot
                == o[k].slot,
{
    let f = original_finding(c, o[k]).unwrap();
    assert(f.slot == o[k].slot);
    lemma_merge_contains_original(o, c, 0, 0, k, f);
    let m = spec_findings(o, c);
    let j = choose|j: int| 0 <= j < m.len() && m[j] == f;
    assert(m[j].slot == o[k].slot);
}

/// Law: a candidate entry at a fresh position that is not strictly past the
/// original's last slot index is always reported as an insertion.
pub proof fn lemma_insertion_reported(o: Seq<Slot>, c: Seq<Slot>, k: int)
    requires
        0 <= k < c.len(),
        !has_position(o, c[k]),
        !appended_after(o, c[k]),
    ensures
        spec_findings(o, c).len() > 0,
        spec_findings(o, c).contains(
            Finding { slot: c[k].slot, reason: IncompatibilityReason::SlotInsertedBeforeExisting },
        ),
{
    let f = Finding { slot: c[k].slot, reason: IncompatibilityReason::SlotInsertedBeforeExisting };
    lemma_merge_contains_insertion(o, c, 0, 0, k, f);
}

/// Law: an empty finding list is never a false pass: it means every original
/// entry still has an interchangeable entry at its position, and every
/// candidate entry at a fresh position lies strictly past the original's
/// last slot index.
pub proof fn lemma_no_findings_means_preserved(o: Seq<Slot>, c: Seq<Slot>)
    requires
        spec_findings(o, c).len() == 0,
    ensures
        forall|k: int| 0 <= k < o.len() ==> has_match(c, #[trigger] o[k]),
        forall|k: int|
            0 <= k < c.len() ==> has_position(o, #[trigger] c[k]) || appended_after(o, c[k]),
{
    assert forall|k: int| 0 <= k < o.len() implies has_match(c, #[trigger] o[k]) by {
        if !has_match(c, o[k]) {
            let f = original_finding(c, o[k]).unwrap();
            lemma_merge_contains_original(o, c, 0, 0, k, f);
            assert(false);
        }
    }
    assert forall|k: int| 0 <= k < c.len() implies has_position(o, #[trigger] c[k])
        || appended_after(o, c[k]) by {
        if !has_position(o, c[k]) && !appended_after(o, c[k]) {
            let f = insertion_finding(o, c[k]).unwrap();
            lemma_merge_contains_insertion(o, c, 0, 0, k, f);
            assert(false);
        }
    }
}

/// The smallest slot index among the entries the merge-walk has not
/// processed yet; every finding it still emits concerns that index or a
/// later one.
spec fn next_slot(o: Seq<Slot>, c: Seq<Slot>, i: int, t: int) -> u64 {
    if i < o.len() && t < c.len() {
        if o[i].slot <= c[t].slot {
            o[i].slot
        } else {
            c[t].slot
        }
    } else if i < o.len() {
        o[i].slot
    } else if t < c.len() {
        c[t].slot
    } else {
        0
    }
}

/// The merge-walk's findings are bounded below by the next unprocessed slot
/// index, and come out in nondecreasing slot order.
proof fn lemma_merge_slot_ordered(o: Seq<Slot>, c: Seq<Slot>, i: int, t: int)
    requires
        layout_wf(o),
        layout_wf(c),
        0 <= i,
        0 <= t,
    ensures
        forall|j: int|
            0 <= j < merge_findings(o, c, i, t).len() ==> (#[trigger] merge_findings(o, c, i, t)[j]).slot
                >= next_slot(o, c, i, t),
        forall|p: int, q: int|
            0 <= p < q < merge_findings(o, c, i, t).len() ==> (#[trigger] merge_findings(
                o,
                c,
                i,
                t,
            )[p]).slot <= (#[trigger] merge_findings(o, c, i, t)[q]).slot,
    decreases o.len() - i, c.len() - t,
{
    let m = merge_findings(o, c, i, t);
    if i >= o.len() && t >= c.len() {
    } else if t >= c.len() || (i < o.len() && pos_le(o[i], c[t])) {
        lemma_merge_slot_ordered(o, c, i + 1, t);
        let rest = merge_findings(o, c, i + 1, t);
        if i + 1 < o.len() || t < c.len() {
            assert(next_slot(o, c, i + 1, t) >= o[i].slot) by {
                if i + 1 < o.len() {
                    assert(slot_precedes(o[i], o[i + 1]));
                }
            }
        } else {
            assert(rest.len() == 0);
        }
        let head = opt_finding_seq(original_finding(c, o[i]));
        assert forall|j: int| 0 <= j < m.len() implies (#[trigger] m[j]).slot >= next_slot(
            o,
            c,
            i,
            t,
        ) by {
            if j >= head.len() {
                assert(m[j] == rest[j - head.len()]);
            }
        }
        assert forall|p: int, q: int| 0 <= p < q < m.len() implies (#[trigger] m[p]).slot
            <= (#[trigger] m[q]).slot by {
            if p >= head.len() {
                assert(m[p] == rest[p - head.len()]);
                assert(m[q] == rest[q - head.len()]);
            } else {
                assert(m[q] == rest[q - head.len()]);
                assert(rest[q - head.len()].slot >= next_slot(o, c, i + 1, t));
            }
        }
    } else {
        lemma_merge_slot_ordered(o, c, i, t + 1);
        let rest = merge_findings(o, c, i, t + 1);
        if i < o.len() || t + 1 < c.len() {
            assert(next_slot(o, c, i, t + 1) >= c[t].slot) by {
                if t + 1 < c.len() {
                    assert(slot_precedes(c[t], c[t + 1]));
                }
            }
        } else {
            assert(rest.len() == 0);
        }
        let head = opt_finding_seq(insertion_finding(o, c[t]));
        assert forall|j: int| 0 <= j < m.len() implies (#[trigger] m[j]).slot >= next_slot(
            o,
            c,
            i,
            t,
        ) by {
            if j >= head.len() {
                assert(m[j] == rest[j - head.len()]);
            }
        }
        assert forall|p: int, q: int| 0 <= p < q < m.len() implies (#[trigger] m[p]).slot
            <= (#[trigger] m[q]).slot by {
            if p >= head.len() {
                assert(m[p] == rest[p - head.len()]);
                assert(m[q] == rest[q - head.len()]);
            } else {
                assert(m[q] == rest[q - head.len()]);
                assert(rest[q - head.len()].slot >= next_slot(o, c, i, t + 1));
            }
        }
    }
}

/// Law: the finding list follows the merge-walk's position order: the slot
/// indices of the findings are nondecreasing from first to last.
pub proof fn lemma_findings_slot_ordered(o: Seq<Slot>, c: Seq<Slot>)
    requires
        layout_wf(o),
        layout_wf(c),
    ensures
        forall|p: int, q: int|
            0 <= p < q < spec_findings(o, c).len() ==> (#[trigger] spec_findings(o, c)[p]).slot
                <= (#[trigger] spec_findings(o, c)[q]).slot,
{
    lemma_merge_slot_ordered(o, c, 0, 0);
}

/// Position and match tests depend only on layout shape, never on names.
proof fn lemma_lookups_ignore_names(c1: Seq<Slot>, c2: Seq<Slot>, s1: Slot, s2: Slot)
    requires
        same_shapes(c1, c2),
        same_shape(s1, s2),
    ensures
        has_position(c1, s1) == has_position(c2, s2),
        has_match(c1, s1) == has_match(c2, s2),
        appended_after(c1, s1) == appended_after(c2, s2),
{
    if has_position(c1, s1) {
        let i = choose|i: int| 0 <= i < c1.len() && same_position(#[trigger] c1[i], s1);
        assert(same_position(c2[i], s2));
    }
    if has_position(c2, s2) {
        let i = choose|i: int| 0 <= i < c2.len() && same_position(#[trigger] c2[i], s2);
        assert(same_position(c1[i], s1));
    }
    if has_match(c1, s1) {
        let i = choose|i: int| 0 <= i < c1.len() && entry_matches(#[trigger] c1[i], s1);
        assert(entry_matches(c2[i], s2));
    }
    if has_match(c2, s2) {
        let i = choose|i: int| 0 <= i < c2.len() && entry_matches(#[trigger] c2[i], s2);
        assert(entry_matches(c1[i], s1));
    }
    if appended_after(c1, s1) {
        assert forall|i: int| 0 <= i < c2.len() implies (#[trigger] c2[i]).slot < s2.slot by {
            assert(c1[i].slot < s1.slot);
        }
    }
    if appended_after(c2, s2) {
        assert forall|i: int| 0 <= i < c1.len() implies (#[trigger] c1[i]).slot < s1.slot by {
            assert(c2[i].slot < s2.slot);
        }
    }
}

/// The merge-walk over shape-equal layouts produces identical findings.
proof fn lemma_merge_ignore_names(
    o1: Seq<Slot>,
    c1: Seq<Slot>,
    o2: Seq<Slot>,
    c2: Seq<Slot>,
    i: int,
    t: int,
)
    requires
        same_shapes(o1, o2),
        same_shapes(c1, c2),
        0 <= i,
        0 <= t,
    ensures
        merge_findings(o1, c1, i, t) == merge_findings(o2, c2, i, t),
    decreases o1.len() - i, c1.len() - t,
{
    if i >= o1.len() && t >= c1.len() {
    } else if t >= c1.len() || (i < o1.len() && pos_le(o1[i], c1[t])) {
        assert(t >= c2.len() || (i < o2.len() && pos_le(o2[i], c2[t])));
        lemma_lookups_ignore_names(c1, c2, o1[i], o2[i]);
        assert(original_finding(c1, o1[i]) == original_finding(c2, o2[i]));
        lemma_merge_ignore_names(o1, c1, o2, c2, i + 1, t);
    } else {
        assert(!(t >= c2.len() || (i < o2.len() && pos_le(o2[i], c2[t]))));
        lemma_lookups_ignore_names(o1, o2, c1[t], c2[t]);
        assert(insertion_finding(o1, c1[t]) == insertion_finding(o2, c2[t]));
        lemma_merge_ignore_names(o1, c1, o2, c2, i, t + 1);
    }
}

/// Law: renaming variables on either side — any change that keeps every
/// entry's slot, offset, width and type — never adds or removes a finding:
/// the check's finding list is exactly the same.
pub proof fn lemma_findings_ignore_names(o1: Seq<Slot>, c1: Seq<Slot>, o2: Seq<Slot>, c2: Seq<Slot>)
    requires
        same_shapes(o1, o2),
        same_shapes(c1, c2),
    ensures
        spec_findings(o1, c1) == spec_findings(o2, c2),
{
    lemma_merge_ignore_names(o1, c1, o2, c2, 0, 0);
}

/// First index of `slots` holding the given position, if any.
fn find_position(slots: &Vec<Slot>, slot: u64, offset: u8) -> (r: Option<usize>)
    ensures
        match r {
            Some(i) => i < slots@.len() && slots@[i as int].slot == slot && slots@[i as int].offset
                == offset,
            None => forall|i: int|
                0 <= i < slots@.len() ==> !((#[trigger] slots@[i]).slot == slot && slots@[i].offset
                    == offset),
        },
{
    let n = slots.len();
    let mut i: usize = 0;
    while i < n
        invariant
            n == slots@.len(),
            i <= n,
            forall|k: int|
                0 <= k < i ==> !((#[trigger] slots@[k]).slot == slot && slots@[k].offset == offset),
        decreases n - i,
    {
        if slots[i].slot == slot && slots[i].offset == offset {
            return Some(i);
        }
        i += 1;
    }
    None
}

/// Checks whether the candidate layout may replace the original in place.
///
/// Returns `Compatible` exactly when no entry of the original lost its
/// position, width or type category, and every new candidate entry lies
/// strictly past the original's last slot index; otherwise returns
/// `Incompatible` with the full finding list of the merge-walk, ordered by
/// the violating entry's (slot index, offset).
pub fn check_storage_compatibility(original: &StorageLayout, candidate: &StorageLayout) -> (v:
    CompatibilityVerdict)
    requires
        original.wf(),
        candidate.wf(),
    ensures
        match v {
            CompatibilityVerdict::Compatible => spec_findings(
                original.slots@,
                candidate.slots@,
            ).len() == 0,
            CompatibilityVerdict::Incompatible(fs) => fs@ == spec_findings(
                original.slots@,
                candidate.slots@,
            ) && fs@.len() > 0,
        },
{
    let o = &original.slots;
    let c = &candidate.slots;
    let n = o.len();
    let m = c.len();
    let mut findings: Vec<Finding> = Vec::new();
    let mut i: usize = 0;
    let mut t: usize = 0;
    while i < n || t < m
        invariant
            original.wf(),
            candidate.wf(),
            n == o@.len(),
            m == c@.len(),
            o == original.slots,
            c == candidate.slots,
            i <= n,
            t <= m,
            spec_findings(o@, c@) == findings@ + merge_findings(o@, c@, i as int, t as int),
        decreases (n - i) + (m - t),
    {
        let take_original = i < n && (t >= m || {
            let a = &o[i];
            let b = &c[t];
            a.slot < b.slot || (a.slot == b.slot && a.offset <= b.offset)
        });
        if take_original {
            let s = &o[i];
            assert(t >= c@.len() || (i < o@.len() && pos_le(o@[i as int], c@[t as int])));
            match find_position(c, s.slot, s.offset) {
                None => {
                    assert(!has_position(c@, *s));
                    let f = Finding {
                        slot: s.slot,
                        reason: IncompatibilityReason::SlotRemovedOrShifted,
                    };
                    proof {
                        assert(original_finding(c@, o@[i as int]) == Some(f));
                    }
                    findings.push(f);
                    proof {
                        assert(findings@ + merge_findings(o@, c@, i + 1, t as int) =~= spec_findings(
                            o@,
                            c@,
                        ));
                    }
                },
                Some(ci) => {
                    assert(has_position(c@, *s)) by {
                        assert(same_position(c@[ci as int], *s));
                    }
                    if s.width == c[ci].width && s.ty == c[ci].ty {
                        proof {
                            assert(entry_matches(c@[ci as int], *s));
                            assert(has_match(c@, *s));
                            assert(original_finding(c@, o@[i as int]) is None);
                            assert(findings@ + merge_findings(o@, c@, i + 1, t as int)
                                =~= spec_findings(o@, c@));
                        }
                    } else {
                        proof {
                            if has_match(c@, *s) {
                                let j = choose|j: int|
                                    0 <= j < c@.len() && entry_matches(#[trigger] c@[j], *s);
                                if j != ci as int {
                                    lemma_positions_unique(c@, j, ci as int);
                                }
                                assert(false);
                            }
                        }
                        let f = Finding {
                            slot: s.slot,
                            reason: IncompatibilityReason::TypeOrWidthChanged,
                        };
                        proof {
                            assert(original_finding(c@, o@[i as int]) == Some(f));
                        }
                        findings.push(f);
                        proof {
                            assert(findings@ + merge_findings(o@, c@, i + 1, t as int)
                                =~= spec_findings(o@, c@));
                        }
                    }
                },
            }
            i += 1;
        } else {
            let e = &c[t];
            assert(!(t >= c@.len() || (i < o@.len() && pos_le(o@[i as int], c@[t as int]))));
            match find_position(o, e.slot, e.offset) {
                Some(oi) => {
                    proof {
                        assert(same_position(o@[oi as int], *e));
                        assert(has_position(o@, *e));
                        assert(insertion_finding(o@, c@[t as int]) is None);
                        assert(findings@ + merge_findings(o@, c@, i as int, t + 1) =~= spec_findings(
                            o@,
                            c@,
                        ));
                    }
                },
                None => {
                    assert(!has_position(o@, *e));
                    let appended = n == 0 || o[n - 1].slot < e.slot;
                    proof {
                        if appended {
                            assert forall|k: int| 0 <= k < o@.len() implies (#[trigger] o@[k]).slot
                                < e.slot by {
                                if k < n - 1 {
                                    assert(slot_precedes(o@[k], o@[n - 1]));
                                }
                            }
                            assert(appended_after(o@, *e));
                        } else {
                            assert(!appended_after(o@, *e)) by {
                                assert((o@[n - 1]).slot >= e.slot);
                            }
                        }
                    }
                    if appended {
                        proof {
                            assert(insertion_finding(o@, c@[t as int]) is None);
                            assert(findings@ + merge_findings(o@, c@, i as int, t + 1)
                                =~= spec_findings(o@, c@));
                        }
                    } else {
                        let f = Finding {
                            slot: e.slot,
                            reason: IncompatibilityReason::SlotInsertedBeforeExisting,
                        };
                        proof {
                            assert(insertion_finding(o@, c@[t as int]) == Some(f));
                        }
                        findings.push(f);
                        proof {
                            assert(findings@ + merge_findings(o@, c@, i as int, t + 1)
                                =~= spec_findings(o@, c@));
                        }
                    }
                },
            }
            t += 1;
        }
    }
    proof {
        assert(findings@ + merge_findings(o@, c@, n as int, m as int) =~= findings@);
    }
    if findings.len() == 0 {
        CompatibilityVerdict::Compatible
    } else {
        CompatibilityVerdict::Incompatible(findings)
    }
}

} // verus!
