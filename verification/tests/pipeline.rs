use tweak::code::{
    BuildArtifact, ByteRange, ChainFacts, GenerationError, PlaceholderRef, Resolution,
};
use tweak::compatibility::{Finding, IncompatibilityReason};
use tweak::executor::{apply, get_code, ChainState};
use tweak::layout::{Slot, StorageLayout, TypeDesc};
use tweak::{tweak, ClonedProject, NamedArtifact, TweakError};

fn entry(slot: u64, offset: u8, width: u8, ty: TypeDesc, name: &str) -> Slot {
    Slot { slot, offset, width, ty, name: name.as_bytes().to_vec() }
}

fn project() -> ClonedProject {
    ClonedProject {
        target_contract: b"Vault".to_vec(),
        chain_id: 31337,
        address: vec![0x22; 20],
        original_layout: StorageLayout::new(vec![
            entry(0, 0, 20, TypeDesc::Address, "owner"),
            entry(1, 0, 32, TypeDesc::Unsigned, "balance"),
        ])
        .unwrap(),
    }
}

fn candidate_artifact(slots: Vec<Slot>) -> BuildArtifact {
    BuildArtifact {
        creation_bytecode: vec![0x60],
        deployed_bytecode: vec![0x00; 8],
        abi: vec![],
        layout: StorageLayout::new(slots).unwrap(),
        immutable_refs: vec![PlaceholderRef {
            name: b"fee".to_vec(),
            ranges: vec![ByteRange { start: 4, length: 2 }],
        }],
        library_refs: vec![],
    }
}

fn good_facts() -> ChainFacts {
    ChainFacts {
        immutable_values: vec![Resolution { name: b"fee".to_vec(), value: vec![0x05, 0x05] }],
        library_addresses: vec![],
    }
}

#[test]
fn full_run_produces_installable_deployment() {
    let artifacts = vec![NamedArtifact {
        contract_name: b"Vault".to_vec(),
        artifact: candidate_artifact(vec![
            entry(0, 0, 20, TypeDesc::Address, "owner"),
            entry(1, 0, 32, TypeDesc::Unsigned, "balance"),
            entry(2, 0, 32, TypeDesc::Unsigned, "fees"),
        ]),
    }];
    let d = tweak(&project(), &artifacts, &good_facts()).unwrap();
    assert_eq!(d.address, vec![0x22; 20]);
    assert_eq!(d.code, vec![0x00, 0x00, 0x00, 0x00, 0x05, 0x05, 0x00, 0x00]);

    let mut chain = ChainState { supports_set_code: true, accounts: vec![] };
    apply(&mut chain, &d).unwrap();
    assert_eq!(get_code(&chain, &vec![0x22; 20]).unwrap(), &d.code);
}

#[test]
fn missing_target_contract_is_reported() {
    let artifacts = vec![NamedArtifact {
        contract_name: b"Other".to_vec(),
        artifact: candidate_artifact(vec![]),
    }];
    let r = tweak(&project(), &artifacts, &good_facts());
    assert_eq!(r.unwrap_err(), TweakError::ContractNotFound);
}

#[test]
fn incompatible_layout_stops_the_pipeline() {
    let artifacts = vec![NamedArtifact {
        contract_name: b"Vault".to_vec(),
        artifact: candidate_artifact(vec![entry(0, 0, 32, TypeDesc::Unsigned, "owner")]),
    }];
    let r = tweak(&project(), &artifacts, &good_facts());
    let expected = vec![
        Finding { slot: 0, reason: IncompatibilityReason::TypeOrWidthChanged },
        Finding { slot: 1, reason: IncompatibilityReason::SlotRemovedOrShifted },
    ];
    assert_eq!(r.unwrap_err(), TweakError::LayoutIncompatible(expected));
}

#[test]
fn generation_failure_is_propagated() {
    let artifacts = vec![NamedArtifact {
        contract_name: b"Vault".to_vec(),
        artifact: candidate_artifact(vec![
            entry(0, 0, 20, TypeDesc::Address, "owner"),
            entry(1, 0, 32, TypeDesc::Unsigned, "balance"),
        ]),
    }];
    let facts = ChainFacts { immutable_values: vec![], library_addresses: vec![] };
    let r = tweak(&project(), &artifacts, &facts);
    assert_eq!(
        r.unwrap_err(),
        TweakError::Generation(GenerationError::UnresolvedImmutable(b"fee".to_vec()))
    );
}

#[test]
fn first_artifact_with_target_name_is_selected() {
    let artifacts = vec![
        NamedArtifact { contract_name: b"Helper".to_vec(), artifact: candidate_artifact(vec![]) },
        NamedArtifact {
            contract_name: b"Vault".to_vec(),
            artifact: candidate_artifact(vec![
                entry(0, 0, 20, TypeDesc::Address, "owner"),
                entry(1, 0, 32, TypeDesc::Unsigned, "balance"),
            ]),
        },
    ];
    let d = tweak(&project(), &artifacts, &good_facts()).unwrap();
    assert_eq!(d.address, vec![0x22; 20]);
}
