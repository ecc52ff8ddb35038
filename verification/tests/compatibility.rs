use tweak::compatibility::{
    check_storage_compatibility, CompatibilityVerdict, Finding, IncompatibilityReason,
};
use tweak::layout::{LayoutError, Slot, StorageLayout, TypeDesc};

fn entry(slot: u64, offset: u8, width: u8, ty: TypeDesc, name: &str) -> Slot {
    Slot { slot, offset, width, ty, name: name.as_bytes().to_vec() }
}

fn layout(slots: Vec<Slot>) -> StorageLayout {
    StorageLayout::new(slots).unwrap()
}

#[test]
fn append_only_is_compatible() {
    let original = layout(vec![
        entry(0, 0, 20, TypeDesc::Address, "owner"),
        entry(1, 0, 32, TypeDesc::Unsigned, "balance"),
    ]);
    let candidate = layout(vec![
        entry(0, 0, 20, TypeDesc::Address, "owner"),
        entry(1, 0, 32, TypeDesc::Unsigned, "balance"),
        entry(2, 0, 32, TypeDesc::Unsigned, "newVar"),
    ]);
    let v = check_storage_compatibility(&original, &candidate);
    assert_eq!(v, CompatibilityVerdict::Compatible);
}

#[test]
fn widen_and_remove_reports_both_slots() {
    let original = layout(vec![
        entry(0, 0, 20, TypeDesc::Address, "owner"),
        entry(1, 0, 32, TypeDesc::Unsigned, "balance"),
    ]);
    let candidate = layout(vec![entry(0, 0, 32, TypeDesc::Unsigned, "owner")]);
    let v = check_storage_compatibility(&original, &candidate);
    let expected = vec![
        Finding { slot: 0, reason: IncompatibilityReason::TypeOrWidthChanged },
        Finding { slot: 1, reason: IncompatibilityReason::SlotRemovedOrShifted },
    ];
    assert_eq!(v, CompatibilityVerdict::Incompatible(expected));
}

#[test]
fn renaming_produces_no_finding() {
    let original = layout(vec![
        entry(0, 0, 20, TypeDesc::Address, "owner"),
        entry(1, 0, 32, TypeDesc::Unsigned, "balance"),
    ]);
    let candidate = layout(vec![
        entry(0, 0, 20, TypeDesc::Address, "administrator"),
        entry(1, 0, 32, TypeDesc::Unsigned, "funds"),
    ]);
    let v = check_storage_compatibility(&original, &candidate);
    assert_eq!(v, CompatibilityVerdict::Compatible);
}

#[test]
fn insertion_before_existing_is_reported() {
    let original = layout(vec![
        entry(0, 0, 20, TypeDesc::Address, "owner"),
        entry(2, 0, 32, TypeDesc::Unsigned, "balance"),
    ]);
    let candidate = layout(vec![
        entry(0, 0, 20, TypeDesc::Address, "owner"),
        entry(1, 0, 32, TypeDesc::Unsigned, "inserted"),
        entry(2, 0, 32, TypeDesc::Unsigned, "balance"),
    ]);
    let v = check_storage_compatibility(&original, &candidate);
    let expected =
        vec![Finding { slot: 1, reason: IncompatibilityReason::SlotInsertedBeforeExisting }];
    assert_eq!(v, CompatibilityVerdict::Incompatible(expected));
}

#[test]
fn width_change_is_reported() {
    let original = layout(vec![entry(0, 0, 20, TypeDesc::Address, "owner")]);
    let candidate = layout(vec![entry(0, 0, 32, TypeDesc::Address, "owner")]);
    let v = check_storage_compatibility(&original, &candidate);
    let expected = vec![Finding { slot: 0, reason: IncompatibilityReason::TypeOrWidthChanged }];
    assert_eq!(v, CompatibilityVerdict::Incompatible(expected));
}

#[test]
fn repacking_inside_a_slot_is_reported() {
    let original = layout(vec![
        entry(0, 0, 1, TypeDesc::Bool, "a"),
        entry(0, 1, 1, TypeDesc::Bool, "b"),
    ]);
    let candidate = layout(vec![
        entry(0, 0, 1, TypeDesc::Bool, "a"),
        entry(0, 2, 1, TypeDesc::Bool, "b"),
    ]);
    let v = check_storage_compatibility(&original, &candidate);
    let expected = vec![
        Finding { slot: 0, reason: IncompatibilityReason::SlotRemovedOrShifted },
        Finding { slot: 0, reason: IncompatibilityReason::SlotInsertedBeforeExisting },
    ];
    assert_eq!(v, CompatibilityVerdict::Incompatible(expected));
}

#[test]
fn findings_come_out_in_position_order() {
    let original = layout(vec![entry(5, 0, 32, TypeDesc::Unsigned, "late")]);
    let candidate = layout(vec![entry(0, 0, 32, TypeDesc::Unsigned, "early")]);
    let v = check_storage_compatibility(&original, &candidate);
    let expected = vec![
        Finding { slot: 0, reason: IncompatibilityReason::SlotInsertedBeforeExisting },
        Finding { slot: 5, reason: IncompatibilityReason::SlotRemovedOrShifted },
    ];
    assert_eq!(v, CompatibilityVerdict::Incompatible(expected));
}

#[test]
fn empty_original_accepts_any_candidate() {
    let original = layout(vec![]);
    let candidate = layout(vec![entry(3, 0, 32, TypeDesc::Mapping, "balances")]);
    let v = check_storage_compatibility(&original, &candidate);
    assert_eq!(v, CompatibilityVerdict::Compatible);
}

#[test]
fn reference_kind_change_is_reported() {
    let original = layout(vec![entry(0, 0, 32, TypeDesc::Mapping, "m")]);
    let candidate = layout(vec![entry(0, 0, 32, TypeDesc::DynamicArray, "m")]);
    let v = check_storage_compatibility(&original, &candidate);
    let expected = vec![Finding { slot: 0, reason: IncompatibilityReason::TypeOrWidthChanged }];
    assert_eq!(v, CompatibilityVerdict::Incompatible(expected));
}

#[test]
fn zero_width_entry_is_malformed() {
    let r = StorageLayout::new(vec![entry(0, 0, 0, TypeDesc::Bool, "z")]);
    assert_eq!(r.unwrap_err(), LayoutError::MalformedEntry);
}

#[test]
fn entry_past_slot_end_is_malformed() {
    let r = StorageLayout::new(vec![entry(0, 20, 20, TypeDesc::Address, "a")]);
    assert_eq!(r.unwrap_err(), LayoutError::MalformedEntry);
}

#[test]
fn overlapping_entries_are_rejected() {
    let r = StorageLayout::new(vec![
        entry(0, 0, 20, TypeDesc::Address, "a"),
        entry(0, 10, 20, TypeDesc::Address, "b"),
    ]);
    assert_eq!(r.unwrap_err(), LayoutError::OutOfOrderOrOverlapping);
}

#[test]
fn unordered_entries_are_rejected() {
    let r = StorageLayout::new(vec![
        entry(1, 0, 32, TypeDesc::Unsigned, "b"),
        entry(0, 0, 32, TypeDesc::Unsigned, "a"),
    ]);
    assert_eq!(r.unwrap_err(), LayoutError::OutOfOrderOrOverlapping);
}
