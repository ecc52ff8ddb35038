//! The executor step, modelled on a mutable forked chain: gather the
//! deployment facts the generator needs, then install the finished runtime
//! bytecode at the target address. The substitution replaces only the code
//! object; it never touches a storage slot.

use vstd::prelude::*;

use crate::bytes::{bytes_eq, clone_bytes, copy_range};
use crate::code::{GenerationError, PlaceholderRef, Resolution, TweakedDeployment};

verus! {

/// One occupied storage slot of an account: slot index and 32-byte word.
#[derive(Clone, Debug)]
pub struct StorageCell {
    /// Slot index.
    pub slot: u64,
    /// The stored word.
    pub value: Vec<u8>,
}

/// One account of the forked chain: its address, code object and storage.
#[derive(Clone, Debug)]
pub struct Account {
    /// The account's address.
    pub address: Vec<u8>,
    /// The code object resident at the address.
    pub code: Vec<u8>,
    /// The account's occupied storage slots.
    pub storage: Vec<StorageCell>,
}

/// The chain endpoint as the executor sees it: whether in-place code
/// replacement is available (a mutable fork) and the account state.
#[derive(Clone, Debug)]
pub struct ChainState {
    /// Whether the endpoint supports replacing code in place.
    pub supports_set_code: bool,
    /// The accounts, addresses pairwise distinct by convention of the chain.
    pub accounts: Vec<Account>,
}

/// Why the substitution step failed.
#[derive(Clone, Copy, PartialEq, Eq, Structural, Debug)]
pub enum ExecutionError {
    /// The endpoint does not support in-place code replacement; nothing was
    /// attempted.
    UnsupportedTarget,
}

/// How a chain call failed, for the retry policy.
#[derive(Clone, Copy, PartialEq, Eq, Structural, Debug)]
pub enum RpcFailure {
    /// Transient transport failure: connection reset, timeout.
    TransientTransport,
    /// Definitive chain-level rejection: malformed call, unsupported method.
    DefinitiveRejection,
}

/// Index of the first account at `address`, starting from `i`; -1 if none.
pub open spec fn account_index_from(accounts: Seq<Account>, address: Seq<u8>, i: int) -> int
    decreases accounts.len() - i,
{
    if i < 0 || i >= accounts.len() {
        -1
    } else if accounts[i].address@ == address {
        i
    } else {
        account_index_from(accounts, address, i + 1)
    }
}

/// Index of the account at `address`; -1 if none.
pub open spec fn account_index(accounts: Seq<Account>, address: Seq<u8>) -> int {
    account_index_from(accounts, address, 0)
}

/// Index of the first cell for `slot`, starting from `i`; -1 if none.
pub open spec fn storage_index_from(cells: Seq<StorageCell>, slot: u64, i: int) -> int
    decreases cells.len() - i,
{
    if i < 0 || i >= cells.len() {
        -1
    } else if cells[i].slot == slot {
        i
    } else {
        storage_index_from(cells, slot, i + 1)
    }
}

/// Index of the cell for `slot`; -1 if none.
pub open spec fn storage_index(cells: Seq<StorageCell>, slot: u64) -> int {
    storage_index_from(cells, slot, 0)
}

/// The substitution's whole effect: the code object at the deployment's
/// address is now the deployment's code — installed over the existing
/// account, or in a fresh account with empty storage — and every other
/// account, and every storage slot, is exactly as before.
pub open spec fn code_updated(pre: ChainState, post: ChainState, d: TweakedDeployment) -> bool {
    let i = account_index(pre.accounts@, d.address@);
    &&& post.supports_set_code == pre.supports_set_code
    &&& if i >= 0 {
        &&& post.accounts@.len() == pre.accounts@.len()
        &&& forall|j: int|
            0 <= j < pre.accounts@.len() && j != i ==> post.accounts@[j] == pre.accounts@[j]
        &&& post.accounts@[i].address@ == pre.accounts@[i].address@
        &&& post.accounts@[i].storage@ == pre.accounts@[i].storage@
        &&& post.accounts@[i].code@ == d.code@
    } else {
        &&& post.accounts@.len() == pre.accounts@.len() + 1
        &&& forall|j: int| 0 <= j < pre.accounts@.len() ==> post.accounts@[j] == pre.accounts@[j]
        &&& post.accounts@[pre.accounts@.len() as int].address@ == d.address@
        &&& post.accounts@[pre.accounts@.len() as int].code@ == d.code@
        &&& post.accounts@[pre.accounts@.len() as int].storage@.len() == 0
    }
}

/// First index of `accounts` whose address equals `address`, if any.
fn find_account(accounts: &Vec<Account>, address: &Vec<u8>) -> (r: Option<usize>)
    ensures
        match r {
            Some(i) => account_index(accounts@, address@) == i as int && i < accounts@.len()
                && accounts@[i as int].address@ == address@,
            None => account_index(accounts@, address@) == -1,
        },
{
    let n = accounts.len();
    let mut i: usize = 0;
    while i < n
        invariant
            n == accounts@.len(),
            i <= n,
            account_index(accounts@, address@) == account_index_from(accounts@, address@, i as int),
        decreases n - i,
    {
        if bytes_eq(&accounts[i].address, address) {
            return Some(i);
        }
        i += 1;
    }
    None
}

/// The code object at `address`, if the account exists.
pub fn get_code<'a>(chain: &'a ChainState, address: &Vec<u8>) -> (r: Option<&'a Vec<u8>>)
    ensures
        ({
            let i = account_index(chain.accounts@, address@);
            match r {
                Some(c) => i >= 0 && c@ == chain.accounts@[i].code@,
                None => i == -1,
            }
        }),
{
    match find_account(&chain.accounts, address) {
        Some(i) => Some(&chain.accounts[i].code),
        None => None,
    }
}

/// The word stored at `slot` of the account at `address`, if both exist.
pub fn get_storage_at<'a>(chain: &'a ChainState, address: &Vec<u8>, slot: u64) -> (r: Option<
    &'a Vec<u8>,
>)
    ensures
        ({
            let i = account_index(chain.accounts@, address@);
            match r {
                Some(v) => i >= 0 && storage_index(chain.accounts@[i].storage@, slot) >= 0 && v@
                    == chain.accounts@[i].storage@[storage_index(
                    chain.accounts@[i].storage@,
                    slot,
                )].value@,
                None => i == -1 || storage_index(chain.accounts@[i].storage@, slot) == -1,
            }
        }),
{
    let i = match find_account(&chain.accounts, address) {
        Some(i) => i,
        None => {
            return None;
        },
    };
    let cells = &chain.accounts[i].storage;
    let n = cells.len();
    let mut k: usize = 0;
    while k < n
        invariant
            n == cells@.len(),
            k <= n,
            account_index(chain.accounts@, address@) == i as int,
            i < chain.accounts@.len(),
            cells@ == chain.accounts@[i as int].storage@,
            storage_index(cells@, slot) == storage_index_from(cells@, slot, k as int),
        decreases n - k,
    {
        if cells[k].slot == slot {
            proof {
                assert(storage_index_from(cells@, slot, k as int) == k as int);
            }
            return Some(&cells[k].value);
        }
        k += 1;
    }
    None
}

/// Installs the deployment's code at its target address, in place.
///
/// Fails with `UnsupportedTarget`, changing nothing, exactly when the
/// endpoint does not support code replacement; otherwise replaces only the
/// code object at the target address, touching no storage slot and no other
/// account.
pub fn apply(chain: &mut ChainState, deployment: &TweakedDeployment) -> (r: Result<
    (),
    ExecutionError,
>)
    ensures
        match r {
            Ok(()) => old(chain).supports_set_code && code_updated(
                *old(chain),
                *final(chain),
                *deployment,
            ),
            Err(ExecutionError::UnsupportedTarget) => !old(chain).supports_set_code && *final(chain)
                == *old(chain),
        },
{
    if !chain.supports_set_code {
        return Err(ExecutionError::UnsupportedTarget);
    }
    let new_code = clone_bytes(&deployment.code);
    match find_account(&chain.accounts, &deployment.address) {
        Some(i) => {
            let a = &mut chain.accounts[i];
            a.code = new_code;
        },
        None => {
            let address = clone_bytes(&deployment.address);
            chain.accounts.push(Account { address, code: new_code, storage: Vec::new() });
        },
    }
    Ok(())
}

/// The account scan lands on `i` exactly when `i` holds the address and no
/// earlier account does.
proof fn lemma_account_index_at(accounts: Seq<Account>, address: Seq<u8>, i: int)
    requires
        0 <= i < accounts.len(),
        accounts[i].address@ == address,
        forall|j: int| 0 <= j < i ==> (#[trigger] accounts[j]).address@ != address,
    ensures
        account_index(accounts, address) == i,
{
    lemma_account_index_at_from(accounts, address, 0, i);
}

/// Helper: the scan from `k` lands on the first hit at or past `k`.
proof fn lemma_account_index_at_from(accounts: Seq<Account>, address: Seq<u8>, k: int, i: int)
    requires
        0 <= k <= i < accounts.len(),
        accounts[i].address@ == address,
        forall|j: int| k <= j < i ==> (#[trigger] accounts[j]).address@ != address,
    ensures
        account_index_from(accounts, address, k) == i,
    decreases i - k,
{
    if k < i {
        lemma_account_index_at_from(accounts, address, k + 1, i);
    }
}

/// A scan that returns -1 saw no account at the address.
proof fn lemma_account_index_none(accounts: Seq<Account>, address: Seq<u8>, k: int)
    requires
        0 <= k <= accounts.len(),
        account_index_from(accounts, address, k) < 0,
    ensures
        forall|j: int| k <= j < accounts.len() ==> (#[trigger] accounts[j]).address@ != address,
    decreases accounts.len() - k,
{
    if k < accounts.len() {
        lemma_account_index_none(accounts, address, k + 1);
    }
}

/// Two chain states agree on everything observable: fork kind, addresses,
/// code objects and storage.
pub open spec fn same_chain_view(a: ChainState, b: ChainState) -> bool {
    &&& a.supports_set_code == b.supports_set_code
    &&& a.accounts@.len() == b.accounts@.len()
    &&& forall|j: int|
        0 <= j < a.accounts@.len() ==> (#[trigger] a.accounts@[j]).address@ == b.accounts@[j].address@
            && a.accounts@[j].code@ == b.accounts@[j].code@ && a.accounts@[j].storage@
            == b.accounts@[j].storage@
}

/// Law: installing the same tweaked deployment twice is a no-op the second
/// time — the chain after the second substitution is observably identical to
/// the chain after the first, code, addresses and storage alike.
pub proof fn lemma_apply_idempotent(
    pre: ChainState,
    mid: ChainState,
    post: ChainState,
    d: TweakedDeployment,
)
    requires
        code_updated(pre, mid, d),
        code_updated(mid, post, d),
    ensures
        same_chain_view(mid, post),
{
    let i = account_index(pre.accounts@, d.address@);
    if i >= 0 {
        lemma_account_index_found(pre.accounts@, d.address@);
        assert forall|j: int| 0 <= j < i implies (#[trigger] mid.accounts@[j]).address@
            != d.address@ by {
            assert(mid.accounts@[j] == pre.accounts@[j]);
        }
        lemma_account_index_at(mid.accounts@, d.address@, i);
    } else {
        lemma_account_index_none(pre.accounts@, d.address@, 0);
        let m = pre.accounts@.len() as int;
        assert forall|j: int| 0 <= j < m implies (#[trigger] mid.accounts@[j]).address@
            != d.address@ by {
            assert(mid.accounts@[j] == pre.accounts@[j]);
        }
        lemma_account_index_at(mid.accounts@, d.address@, m);
    }
}

/// A scan that found an index found the address there, and nowhere earlier.
proof fn lemma_account_index_found(accounts: Seq<Account>, address: Seq<u8>)
    requires
        account_index(accounts, address) >= 0,
    ensures
        account_index(accounts, address) < accounts.len(),
        accounts[account_index(accounts, address)].address@ == address,
        forall|j: int|
            0 <= j < account_index(accounts, address) ==> (#[trigger] accounts[j]).address@
                != address,
{
    lemma_account_index_found_from(accounts, address, 0);
}

/// Helper: the same, for a scan starting at `k`.
proof fn lemma_account_index_found_from(accounts: Seq<Account>, address: Seq<u8>, k: int)
    requires
        0 <= k <= accounts.len(),
        account_index_from(accounts, address, k) >= 0,
    ensures
        account_index_from(accounts, address, k) < accounts.len(),
        accounts[account_index_from(accounts, address, k)].address@ == address,
        forall|j: int|
            k <= j < account_index_from(accounts, address, k) ==> (#[trigger] accounts[j]).address@
                != address,
    decreases accounts.len() - k,
{
    if k < accounts.len() && accounts[k].address@ != address {
        lemma_account_index_found_from(accounts, address, k + 1);
    }
}

/// Whether a failed chain call should be retried: only transient transport
/// failures, and only while the bounded retry budget lasts. A definitive
/// chain-level rejection is never retried.
pub fn should_retry(failure: &RpcFailure, attempts_made: u32, max_attempts: u32) -> (r: bool)
    ensures
        r == (*failure == RpcFailure::TransientTransport && attempts_made < max_attempts),
{
    match failure {
        RpcFailure::TransientTransport => attempts_made < max_attempts,
        RpcFailure::DefinitiveRejection => false,
    }
}

/// Whether a placeholder's value can be read back from deployed code of the
/// given length: it has at least one recorded range, and the first lies
/// inside the code.
pub open spec fn readable(code_len: int, r: PlaceholderRef) -> bool {
    r.ranges@.len() > 0 && r.ranges@[0].start + r.ranges@[0].length <= code_len
}

/// The name of the first placeholder at or past `i` whose value cannot be
/// read back from code of the given length, if any.
pub open spec fn first_unreadable(refs: Seq<PlaceholderRef>, code_len: int, i: int) -> Option<
    Seq<u8>,
>
    decreases refs.len() - i,
{
    if i < 0 || i >= refs.len() {
        None
    } else if !readable(code_len, refs[i]) {
        Some(refs[i].name@)
    } else {
        first_unreadable(refs, code_len, i + 1)
    }
}

/// Fact-gathering: reads each placeholder's current value out of the code
/// object fetched from the chain, at the placeholder's first recorded range.
///
/// Succeeds exactly when every placeholder has a recorded range lying inside
/// the code; otherwise names the first placeholder whose value is not
/// discoverable. The ranges handed in are the recompiled artifact's; the
/// bytes read are the original deployment's values only where the tweak
/// leaves those byte offsets unchanged — an immutable whose position moved
/// is not discoverable this way and its value must come from elsewhere.
pub fn extract_placeholder_values(code: &Vec<u8>, refs: &Vec<PlaceholderRef>) -> (r: Result<
    Vec<Resolution>,
    GenerationError,
>)
    ensures
        match r {
            Ok(vals) => {
                &&& first_unreadable(refs@, code@.len() as int, 0) is None
                &&& vals@.len() == refs@.len()
                &&& forall|i: int|
                    0 <= i < refs@.len() ==> (#[trigger] vals@[i]).name@ == refs@[i].name@
                        && vals@[i].value@ == code@.subrange(
                        refs@[i].ranges@[0].start as int,
                        refs@[i].ranges@[0].start + refs@[i].ranges@[0].length,
                    )
            },
            Err(GenerationError::UnresolvedImmutable(n)) => first_unreadable(
                refs@,
                code@.len() as int,
                0,
            ) == Some(n@),
            Err(_) => false,
        },
{
    let n = refs.len();
    let mut vals: Vec<Resolution> = Vec::new();
    let mut i: usize = 0;
    while i < n
        invariant
            n == refs@.len(),
            i <= n,
            vals@.len() == i,
            first_unreadable(refs@, code@.len() as int, 0) == first_unreadable(
                refs@,
                code@.len() as int,
                i as int,
            ),
            forall|k: int|
                0 <= k < i ==> (#[trigger] vals@[k]).name@ == refs@[k].name@ && vals@[k].value@
                    == code@.subrange(
                    refs@[k].ranges@[0].start as int,
                    refs@[k].ranges@[0].start + refs@[k].ranges@[0].length,
                ),
        decreases n - i,
    {
        let r = &refs[i];
        if r.ranges.len() == 0 {
            return Err(GenerationError::UnresolvedImmutable(clone_bytes(&r.name)));
        }
        let first = &r.ranges[0];
        if !(first.start <= code.len() && code.len() - first.start >= first.length) {
            return Err(GenerationError::UnresolvedImmutable(clone_bytes(&r.name)));
        }
        let name = clone_bytes(&r.name);
        let value = copy_range(code, first.start, first.length);
        vals.push(Resolution { name, value });
        i += 1;
    }
    Ok(vals)
}

} // verus!
