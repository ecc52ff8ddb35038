use tweak::code::{ByteRange, GenerationError, PlaceholderRef, TweakedDeployment};
use tweak::executor::{
    apply, extract_placeholder_values, get_code, get_storage_at, should_retry, Account,
    ChainState, ExecutionError, RpcFailure, StorageCell,
};

fn chain_with_target() -> ChainState {
    ChainState {
        supports_set_code: true,
        accounts: vec![Account {
            address: vec![0x11; 20],
            code: vec![0xDE, 0xAD],
            storage: vec![
                StorageCell { slot: 0, value: vec![0x01; 32] },
                StorageCell { slot: 5, value: vec![0x02; 32] },
            ],
        }],
    }
}

fn deployment() -> TweakedDeployment {
    TweakedDeployment { address: vec![0x11; 20], code: vec![0xBE, 0xEF, 0x60] }
}

#[test]
fn apply_replaces_only_the_code_object() {
    let mut chain = chain_with_target();
    apply(&mut chain, &deployment()).unwrap();
    assert_eq!(get_code(&chain, &vec![0x11; 20]).unwrap(), &vec![0xBE, 0xEF, 0x60]);
    assert_eq!(get_storage_at(&chain, &vec![0x11; 20], 0).unwrap(), &vec![0x01; 32]);
    assert_eq!(get_storage_at(&chain, &vec![0x11; 20], 5).unwrap(), &vec![0x02; 32]);
    assert!(get_storage_at(&chain, &vec![0x11; 20], 7).is_none());
}

#[test]
fn applying_twice_leaves_the_same_code() {
    let mut chain = chain_with_target();
    apply(&mut chain, &deployment()).unwrap();
    let after_first = get_code(&chain, &vec![0x11; 20]).unwrap().clone();
    apply(&mut chain, &deployment()).unwrap();
    let after_second = get_code(&chain, &vec![0x11; 20]).unwrap().clone();
    assert_eq!(after_first, after_second);
    assert_eq!(chain.accounts.len(), 1);
    assert_eq!(get_storage_at(&chain, &vec![0x11; 20], 5).unwrap(), &vec![0x02; 32]);
}

#[test]
fn apply_to_fresh_address_creates_the_account() {
    let mut chain = ChainState { supports_set_code: true, accounts: vec![] };
    apply(&mut chain, &deployment()).unwrap();
    assert_eq!(get_code(&chain, &vec![0x11; 20]).unwrap(), &vec![0xBE, 0xEF, 0x60]);
    assert!(get_storage_at(&chain, &vec![0x11; 20], 0).is_none());
    let mut again = chain.clone();
    apply(&mut again, &deployment()).unwrap();
    assert_eq!(again.accounts.len(), 1);
}

#[test]
fn immutable_target_is_unsupported() {
    let mut chain = chain_with_target();
    chain.supports_set_code = false;
    let r = apply(&mut chain, &deployment());
    assert_eq!(r.unwrap_err(), ExecutionError::UnsupportedTarget);
    assert_eq!(get_code(&chain, &vec![0x11; 20]).unwrap(), &vec![0xDE, 0xAD]);
}

#[test]
fn only_transient_failures_are_retried_within_budget() {
    assert!(should_retry(&RpcFailure::TransientTransport, 0, 3));
    assert!(should_retry(&RpcFailure::TransientTransport, 2, 3));
    assert!(!should_retry(&RpcFailure::TransientTransport, 3, 3));
    assert!(!should_retry(&RpcFailure::DefinitiveRejection, 0, 3));
}

#[test]
fn extraction_reads_each_placeholder_from_code() {
    let code = vec![0x10, 0x11, 0x12, 0x13, 0x14, 0x15, 0x16, 0x17];
    let refs = vec![
        PlaceholderRef { name: b"a".to_vec(), ranges: vec![ByteRange { start: 1, length: 2 }] },
        PlaceholderRef { name: b"b".to_vec(), ranges: vec![ByteRange { start: 5, length: 3 }] },
    ];
    let vals = extract_placeholder_values(&code, &refs).unwrap();
    assert_eq!(vals.len(), 2);
    assert_eq!(vals[0].name, b"a".to_vec());
    assert_eq!(vals[0].value, vec![0x11, 0x12]);
    assert_eq!(vals[1].name, b"b".to_vec());
    assert_eq!(vals[1].value, vec![0x15, 0x16, 0x17]);
}

#[test]
fn extraction_fails_on_rangeless_placeholder() {
    let code = vec![0x10; 8];
    let refs = vec![PlaceholderRef { name: b"ghost".to_vec(), ranges: vec![] }];
    let r = extract_placeholder_values(&code, &refs);
    assert_eq!(r.unwrap_err(), GenerationError::UnresolvedImmutable(b"ghost".to_vec()));
}

#[test]
fn extraction_fails_on_range_past_code_end() {
    let code = vec![0x10; 8];
    let refs = vec![PlaceholderRef {
        name: b"far".to_vec(),
        ranges: vec![ByteRange { start: 6, length: 4 }],
    }];
    let r = extract_placeholder_values(&code, &refs);
    assert_eq!(r.unwrap_err(), GenerationError::UnresolvedImmutable(b"far".to_vec()));
}

#[test]
fn missing_account_has_no_code() {
    let chain = chain_with_target();
    assert!(get_code(&chain, &vec![0x99; 20]).is_none());
    assert!(get_storage_at(&chain, &vec![0x99; 20], 0).is_none());
}
