use tweak::code::{
    generate_tweaked_code, BuildArtifact, ByteRange, ChainFacts, GenerationError, PlaceholderRef,
    Resolution,
};
use tweak::layout::StorageLayout;
use tweak::ClonedProject;

fn project() -> ClonedProject {
    ClonedProject {
        target_contract: b"Counter".to_vec(),
        chain_id: 1,
        address: vec![0x11; 20],
        original_layout: StorageLayout::new(vec![]).unwrap(),
    }
}

fn artifact(
    deployed: Vec<u8>,
    immutable_refs: Vec<PlaceholderRef>,
    library_refs: Vec<PlaceholderRef>,
) -> BuildArtifact {
    BuildArtifact {
        creation_bytecode: vec![0x60, 0x80],
        deployed_bytecode: deployed,
        abi: vec![],
        layout: StorageLayout::new(vec![]).unwrap(),
        immutable_refs,
        library_refs,
    }
}

fn named_ref(name: &str, ranges: Vec<ByteRange>) -> PlaceholderRef {
    PlaceholderRef { name: name.as_bytes().to_vec(), ranges }
}

fn fact(name: &str, value: Vec<u8>) -> Resolution {
    Resolution { name: name.as_bytes().to_vec(), value }
}

#[test]
fn missing_immutable_resolution_fails() {
    let a = artifact(
        vec![0x00; 16],
        vec![
            named_ref("a", vec![ByteRange { start: 2, length: 4 }]),
            named_ref("b", vec![ByteRange { start: 10, length: 4 }]),
        ],
        vec![],
    );
    let facts = ChainFacts {
        immutable_values: vec![fact("a", vec![0xAA; 4])],
        library_addresses: vec![],
    };
    let r = generate_tweaked_code(&project(), &a, &facts);
    assert_eq!(r.unwrap_err(), GenerationError::UnresolvedImmutable(b"b".to_vec()));
}

#[test]
fn all_immutables_resolved_yields_placeholder_free_code() {
    let a = artifact(
        vec![0x00; 16],
        vec![
            named_ref("a", vec![ByteRange { start: 2, length: 4 }]),
            named_ref("b", vec![ByteRange { start: 10, length: 4 }]),
        ],
        vec![],
    );
    let facts = ChainFacts {
        immutable_values: vec![fact("a", vec![0xAA; 4]), fact("b", vec![0xBB; 4])],
        library_addresses: vec![],
    };
    let d = generate_tweaked_code(&project(), &a, &facts).unwrap();
    let mut expected = vec![0x00; 16];
    expected[2..6].copy_from_slice(&[0xAA; 4]);
    expected[10..14].copy_from_slice(&[0xBB; 4]);
    assert_eq!(d.code, expected);
    assert_eq!(d.address, vec![0x11; 20]);
}

#[test]
fn immutable_with_several_ranges_fills_each() {
    let a = artifact(
        vec![0xFF; 12],
        vec![named_ref(
            "x",
            vec![ByteRange { start: 0, length: 2 }, ByteRange { start: 8, length: 2 }],
        )],
        vec![],
    );
    let facts = ChainFacts {
        immutable_values: vec![fact("x", vec![0x01, 0x02])],
        library_addresses: vec![],
    };
    let d = generate_tweaked_code(&project(), &a, &facts).unwrap();
    assert_eq!(d.code, vec![0x01, 0x02, 0xFF, 0xFF, 0xFF, 0xFF, 0xFF, 0xFF, 0x01, 0x02, 0xFF, 0xFF]);
}

#[test]
fn unknown_library_is_a_relink_error() {
    let a = artifact(
        vec![0x00; 24],
        vec![],
        vec![named_ref("MathLib", vec![ByteRange { start: 2, length: 20 }])],
    );
    let facts = ChainFacts { immutable_values: vec![], library_addresses: vec![] };
    let r = generate_tweaked_code(&project(), &a, &facts);
    assert_eq!(r.unwrap_err(), GenerationError::LibraryRelinkNotSupported(b"MathLib".to_vec()));
}

#[test]
fn library_address_is_spliced() {
    let a = artifact(
        vec![0x00; 24],
        vec![],
        vec![named_ref("MathLib", vec![ByteRange { start: 2, length: 20 }])],
    );
    let facts = ChainFacts {
        immutable_values: vec![],
        library_addresses: vec![fact("MathLib", vec![0xCC; 20])],
    };
    let d = generate_tweaked_code(&project(), &a, &facts).unwrap();
    let mut expected = vec![0x00; 24];
    expected[2..22].copy_from_slice(&[0xCC; 20]);
    assert_eq!(d.code, expected);
}

#[test]
fn wrong_width_value_is_incomplete_linking() {
    let a = artifact(
        vec![0x00; 16],
        vec![named_ref("a", vec![ByteRange { start: 2, length: 4 }])],
        vec![],
    );
    let facts = ChainFacts {
        immutable_values: vec![fact("a", vec![0xAA; 3])],
        library_addresses: vec![],
    };
    let r = generate_tweaked_code(&project(), &a, &facts);
    assert_eq!(r.unwrap_err(), GenerationError::IncompleteLinking);
}

#[test]
fn out_of_bounds_range_is_incomplete_linking() {
    let a = artifact(
        vec![0x00; 4],
        vec![named_ref("a", vec![ByteRange { start: 2, length: 4 }])],
        vec![],
    );
    let facts = ChainFacts {
        immutable_values: vec![fact("a", vec![0xAA; 4])],
        library_addresses: vec![],
    };
    let r = generate_tweaked_code(&project(), &a, &facts);
    assert_eq!(r.unwrap_err(), GenerationError::IncompleteLinking);
}

#[test]
fn unresolved_immutable_wins_over_unresolved_library() {
    let a = artifact(
        vec![0x00; 32],
        vec![named_ref("imm", vec![ByteRange { start: 0, length: 4 }])],
        vec![named_ref("Lib", vec![ByteRange { start: 8, length: 20 }])],
    );
    let facts = ChainFacts { immutable_values: vec![], library_addresses: vec![] };
    let r = generate_tweaked_code(&project(), &a, &facts);
    assert_eq!(r.unwrap_err(), GenerationError::UnresolvedImmutable(b"imm".to_vec()));
}

#[test]
fn no_placeholders_returns_bytecode_unchanged() {
    let a = artifact(vec![0x42, 0x43, 0x44], vec![], vec![]);
    let facts = ChainFacts { immutable_values: vec![], library_addresses: vec![] };
    let d = generate_tweaked_code(&project(), &a, &facts).unwrap();
    assert_eq!(d.code, vec![0x42, 0x43, 0x44]);
}
