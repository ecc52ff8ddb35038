//! The tweaked-code generator: resolves every immutable and library
//! placeholder recorded in a build artifact against facts gathered from the
//! chain, and byte-splices the resolved values into the deployed bytecode,
//! yielding the self-contained code object to install at the original
//! address.

use vstd::prelude::*;

use crate::bytes::{bytes_eq, clone_bytes};
use crate::layout::StorageLayout;
use crate::metadata::ClonedProject;

verus! {

/// A contiguous byte range inside the deployed bytecode that a placeholder
/// occupies and a resolved value must fill exactly.
#[derive(Clone, Copy, PartialEq, Eq, Structural, Debug)]
pub struct ByteRange {
    /// Offset of the range's first byte in the deployed bytecode.
    pub start: usize,
    /// Number of bytes in the range.
    pub length: usize,
}

/// One placeholder of the artifact's immutable-reference or
/// library-reference table: a name and the byte ranges it occupies.
#[derive(Clone, Debug)]
pub struct PlaceholderRef {
    /// The referenced immutable variable or library, as identifier bytes.
    pub name: Vec<u8>,
    /// Every byte range in the deployed bytecode awaiting this value.
    pub ranges: Vec<ByteRange>,
}

/// A compilation result, read-only once produced: bytecode, layout, and the
/// placeholder tables still awaiting deployment facts.
#[derive(Clone, Debug)]
pub struct BuildArtifact {
    /// One-time constructor (creation) bytecode.
    pub creation_bytecode: Vec<u8>,
    /// Runtime bytecode as compiled, placeholders not yet resolved.
    pub deployed_bytecode: Vec<u8>,
    /// ABI description bytes; carried along, not consumed by generation.
    pub abi: Vec<u8>,
    /// Storage layout the compiler assigned to this bytecode.
    pub layout: StorageLayout,
    /// Immutable values to be filled in from the original deployment.
    pub immutable_refs: Vec<PlaceholderRef>,
    /// Library addresses to be filled in from the original deployment.
    pub library_refs: Vec<PlaceholderRef>,
}

/// One resolved deployment fact: a placeholder name and its value bytes.
#[derive(Clone, Debug)]
pub struct Resolution {
    /// The placeholder name the value belongs to.
    pub name: Vec<u8>,
    /// The value bytes to splice in.
    pub value: Vec<u8>,
}

/// Deployment facts gathered from the forked chain before generation: the
/// original deployment's current immutable values and linked library
/// addresses.
#[derive(Clone, Debug)]
pub struct ChainFacts {
    /// Current value of each immutable, by name.
    pub immutable_values: Vec<Resolution>,
    /// Linked address of each library the original deployment used, by name.
    pub library_addresses: Vec<Resolution>,
}

/// The generator's product: the target address and the finished runtime
/// bytecode with every placeholder resolved.
#[derive(Clone, Debug)]
pub struct TweakedDeployment {
    /// Address whose code object is to be replaced.
    pub address: Vec<u8>,
    /// The self-contained runtime bytecode to install.
    pub code: Vec<u8>,
}

/// Why code generation failed.
#[derive(Clone, PartialEq, Eq, Debug)]
pub enum GenerationError {
    /// An immutable placeholder has no resolved value; names the variable.
    UnresolvedImmutable(Vec<u8>),
    /// A library placeholder is not among the libraries the original
    /// deployment linked against; names the library.
    LibraryRelinkNotSupported(Vec<u8>),
    /// A resolved value does not fit its recorded byte ranges: an
    /// internal-consistency failure, never user-recoverable.
    IncompleteLinking,
}

/// The value of the first fact whose name equals `name`, if any.
pub open spec fn lookup_from(facts: Seq<Resolution>, name: Seq<u8>, i: int) -> Option<Seq<u8>>
    decreases facts.len() - i,
{
    if i < 0 || i >= facts.len() {
        None
    } else if facts[i].name@ == name {
        Some(facts[i].value@)
    } else {
        lookup_from(facts, name, i + 1)
    }
}

/// The resolved value a fact list assigns to a placeholder name, if any.
pub open spec fn lookup(facts: Seq<Resolution>, name: Seq<u8>) -> Option<Seq<u8>> {
    lookup_from(facts, name, 0)
}

/// The name of the first placeholder at or past `i` that the fact list does
/// not resolve, if any.
pub open spec fn first_unresolved(
    refs: Seq<PlaceholderRef>,
    facts: Seq<Resolution>,
    i: int,
) -> Option<Seq<u8>>
    decreases refs.len() - i,
{
    if i < 0 || i >= refs.len() {
        None
    } else if lookup(facts, refs[i].name@) is None {
        Some(refs[i].name@)
    } else {
        first_unresolved(refs, facts, i + 1)
    }
}

/// `code` with `value` written in place starting at `start`.
pub open spec fn splice_one(code: Seq<u8>, start: int, value: Seq<u8>) -> Seq<u8> {
    code.take(start) + value + code.skip(start + value.len() as int)
}

/// `code` with `value` written into every range from index `i` on, in order.
pub open spec fn splice_ranges_spec(
    code: Seq<u8>,
    ranges: Seq<ByteRange>,
    value: Seq<u8>,
    i: int,
) -> Seq<u8>
    decreases ranges.len() - i,
{
    if i < 0 || i >= ranges.len() {
        code
    } else {
        splice_ranges_spec(splice_one(code, ranges[i].start as int, value), ranges, value, i + 1)
    }
}

/// `code` with, for every placeholder from index `i` on, its resolved value
/// written into all its ranges, in table order.
pub open spec fn splice_refs_spec(
    code: Seq<u8>,
    refs: Seq<PlaceholderRef>,
    facts: Seq<Resolution>,
    i: int,
) -> Seq<u8>
    decreases refs.len() - i,
{
    if i < 0 || i >= refs.len() {
        code
    } else {
        splice_refs_spec(
            splice_ranges_spec(code, refs[i].ranges@, lookup(facts, refs[i].name@).unwrap(), 0),
            refs,
            facts,
            i + 1,
        )
    }
}

/// Every range expects exactly `value_len` bytes and lies inside the code.
pub open spec fn ranges_fit(ranges: Seq<ByteRange>, value_len: int, code_len: int) -> bool {
    forall|i: int|
        0 <= i < ranges.len() ==> (#[trigger] ranges[i]).length == value_len && ranges[i].start
            + ranges[i].length <= code_len
}

/// Every placeholder's resolved value fits all of that placeholder's ranges.
pub open spec fn refs_fit(refs: Seq<PlaceholderRef>, facts: Seq<Resolution>, code_len: int) -> bool {
    forall|i: int|
        0 <= i < refs.len() ==> ranges_fit(
            (#[trigger] refs[i]).ranges@,
            lookup(facts, refs[i].name@).unwrap().len() as int,
            code_len,
        )
}

/// The first fact with the given name, if any.
fn lookup_value<'a>(facts: &'a Vec<Resolution>, name: &Vec<u8>) -> (r: Option<&'a Vec<u8>>)
    ensures
        match r {
            Some(v) => lookup(facts@, name@) == Some(v@),
            None => lookup(facts@, name@) is None,
        },
{
    let n = facts.len();
    let mut i: usize = 0;
    while i < n
        invariant
            n == facts@.len(),
            i <= n,
            lookup(facts@, name@) == lookup_from(facts@, name@, i as int),
        decreases n - i,
    {
        if bytes_eq(&facts[i].name, name) {
            return Some(&facts[i].value);
        }
        i += 1;
    }
    None
}

/// The first placeholder the fact list leaves unresolved, if any, as a copy
/// of its name.
fn find_unresolved(refs: &Vec<PlaceholderRef>, facts: &Vec<Resolution>) -> (r: Option<Vec<u8>>)
    ensures
        match r {
            Some(name) => first_unresolved(refs@, facts@, 0) == Some(name@),
            None => first_unresolved(refs@, facts@, 0) is None,
        },
{
    let n = refs.len();
    let mut i: usize = 0;
    while i < n
        invariant
            n == refs@.len(),
            i <= n,
            first_unresolved(refs@, facts@, 0) == first_unresolved(refs@, facts@, i as int),
        decreases n - i,
    {
        if lookup_value(facts, &refs[i].name).is_none() {
            return Some(clone_bytes(&refs[i].name));
        }
        i += 1;
    }
    None
}

/// Writes `value` over the bytes of `code` starting at `start`.
fn splice_value(code: &mut Vec<u8>, start: usize, value: &Vec<u8>)
    requires
        start + value@.len() <= old(code)@.len(),
    ensures
        final(code)@ == splice_one(old(code)@, start as int, value@),
        final(code)@.len() == old(code)@.len(),
{
    let n = value.len();
    let clen = code.len();
    assert(start + n <= clen);
    let mut j: usize = 0;
    while j < n
        invariant
            n == value@.len(),
            j <= n,
            start + n <= usize::MAX,
            start + n <= old(code)@.len(),
            code@.len() == old(code)@.len(),
            forall|k: int| 0 <= k < start ==> code@[k] == old(code)@[k],
            forall|k: int| start <= k < start + j ==> code@[k] == value@[k - start],
            forall|k: int| start + j <= k < code@.len() ==> code@[k] == old(code)@[k],
        decreases n - j,
    {
        let idx = start + j;
        code[idx] = value[j];
        j += 1;
    }
    proof {
        assert(code@ =~= splice_one(old(code)@, start as int, value@));
    }
}

/// Checks that `value` fits every range, then writes it into each in order.
/// On a fit failure nothing is written.
fn splice_all_ranges(code: &mut Vec<u8>, ranges: &Vec<ByteRange>, value: &Vec<u8>) -> (ok: bool)
    ensures
        final(code)@.len() == old(code)@.len(),
        ok ==> ranges_fit(ranges@, value@.len() as int, old(code)@.len() as int) && final(code)@
            == splice_ranges_spec(old(code)@, ranges@, value@, 0),
        !ok ==> !ranges_fit(ranges@, value@.len() as int, old(code)@.len() as int) && final(code)@
            == old(code)@,
{
    let n = ranges.len();
    let mut i: usize = 0;
    while i < n
        invariant
            n == ranges@.len(),
            i <= n,
            forall|k: int|
                0 <= k < i ==> (#[trigger] ranges@[k]).length == value@.len()
                    && ranges@[k].start + ranges@[k].length <= code@.len(),
        decreases n - i,
    {
        let r = &ranges[i];
        if !(r.length == value.len() && r.start <= code.len() && code.len() - r.start >= r.length) {
            return false;
        }
        i += 1;
    }
    let mut i: usize = 0;
    while i < n
        invariant
            n == ranges@.len(),
            i <= n,
            code@.len() == old(code)@.len(),
            ranges_fit(ranges@, value@.len() as int, old(code)@.len() as int),
            splice_ranges_spec(old(code)@, ranges@, value@, 0) == splice_ranges_spec(
                code@,
                ranges@,
                value@,
                i as int,
            ),
        decreases n - i,
    {
        splice_value(code, ranges[i].start, value);
        i += 1;
    }
    true
}

/// Resolves every placeholder of `refs` and writes its value into the code.
/// Requires every placeholder to be resolvable; fails only when a value does
/// not fit its ranges, in which case the code may be partially written but
/// keeps its length.
fn splice_refs(code: &mut Vec<u8>, refs: &Vec<PlaceholderRef>, facts: &Vec<Resolution>) -> (ok:
    bool)
    requires
        first_unresolved(refs@, facts@, 0) is None,
    ensures
        final(code)@.len() == old(code)@.len(),
        ok ==> refs_fit(refs@, facts@, old(code)@.len() as int) && final(code)@ == splice_refs_spec(
            old(code)@,
            refs@,
            facts@,
            0,
        ),
        !ok ==> !refs_fit(refs@, facts@, old(code)@.len() as int),
{
    let n = refs.len();
    let mut i: usize = 0;
    while i < n
        invariant
            n == refs@.len(),
            i <= n,
            first_unresolved(refs@, facts@, 0) is None,
            code@.len() == old(code)@.len(),
            forall|k: int|
                0 <= k < i ==> ranges_fit(
                    (#[trigger] refs@[k]).ranges@,
                    lookup(facts@, refs@[k].name@).unwrap().len() as int,
                    old(code)@.len() as int,
                ),
            splice_refs_spec(old(code)@, refs@, facts@, 0) == splice_refs_spec(
                code@,
                refs@,
                facts@,
                i as int,
            ),
        decreases n - i,
    {
        proof {
            lemma_resolved_when_none_missing(refs@, facts@, 0, i as int);
        }
        let value = match lookup_value(facts, &refs[i].name) {
            Some(v) => v,
            None => unreached(),
        };
        if !splice_all_ranges(code, &refs[i].ranges, value) {
            return false;
        }
        i += 1;
    }
    true
}

/// Law: a splice leaves no placeholder bytes behind in the range it covers:
/// the result keeps the code's length, holds exactly the value's bytes over
/// the spliced range, and leaves every byte outside it unchanged.
pub proof fn lemma_splice_one_bytes(code: Seq<u8>, start: int, value: Seq<u8>)
    requires
        0 <= start,
        start + value.len() <= code.len(),
    ensures
        splice_one(code, start, value).len() == code.len(),
        forall|k: int|
            start <= k < start + value.len() ==> splice_one(code, start, value)[k] == value[k
                - start],
        forall|k: int| 0 <= k < start ==> splice_one(code, start, value)[k] == code[k],
        forall|k: int|
            start + value.len() <= k < code.len() ==> splice_one(code, start, value)[k] == code[k],
{
}

/// The ranges are pairwise non-overlapping, as a compiler records them.
pub open spec fn ranges_disjoint(ranges: Seq<ByteRange>) -> bool {
    forall|i: int, j: int|
        0 <= i < j < ranges.len() ==> (#[trigger] ranges[i]).start + ranges[i].length
            <= (#[trigger] ranges[j]).start || ranges[j].start + ranges[j].length
            <= ranges[i].start
}

/// `k` falls inside one of the ranges from index `i` on.
pub open spec fn covered_from(ranges: Seq<ByteRange>, i: int, k: int) -> bool {
    exists|j: int|
        i <= j < ranges.len() && (#[trigger] ranges[j]).start <= k < ranges[j].start
            + ranges[j].length
}

/// Law: splicing a value into pairwise-disjoint ranges leaves no placeholder
/// byte behind: the result keeps the code's length, every range holds
/// exactly the value's bytes, and every byte outside the ranges is the
/// original code's.
pub proof fn lemma_splice_ranges_bytes(
    code: Seq<u8>,
    ranges: Seq<ByteRange>,
    value: Seq<u8>,
    i: int,
)
    requires
        0 <= i <= ranges.len(),
        ranges_fit(ranges, value.len() as int, code.len() as int),
        ranges_disjoint(ranges),
    ensures
        splice_ranges_spec(code, ranges, value, i).len() == code.len(),
        forall|j: int, k: int|
            i <= j < ranges.len() && (#[trigger] ranges[j]).start <= k < ranges[j].start
                + ranges[j].length ==> #[trigger] splice_ranges_spec(code, ranges, value, i)[k]
                == value[k - ranges[j].start],
        forall|k: int|
            0 <= k < code.len() && !covered_from(ranges, i, k) ==> #[trigger] splice_ranges_spec(
                code,
                ranges,
                value,
                i,
            )[k] == code[k],
    decreases ranges.len() - i,
{
    if i < ranges.len() {
        let start = ranges[i].start as int;
        let mid = splice_one(code, start, value);
        lemma_splice_one_bytes(code, start, value);
        lemma_splice_ranges_bytes(mid, ranges, value, i + 1);
        let out = splice_ranges_spec(code, ranges, value, i);
        assert(out == splice_ranges_spec(mid, ranges, value, i + 1));
        assert forall|j: int, k: int|
            i <= j < ranges.len() && (#[trigger] ranges[j]).start <= k < ranges[j].start
                + ranges[j].length implies #[trigger] out[k] == value[k - ranges[j].start] by {
            if j == i {
                assert(!covered_from(ranges, i + 1, k)) by {
                    if covered_from(ranges, i + 1, k) {
                        let j2 = choose|j2: int|
                            i + 1 <= j2 < ranges.len() && (#[trigger] ranges[j2]).start <= k
                                < ranges[j2].start + ranges[j2].length;
                        assert(ranges[i].start + ranges[i].length <= ranges[j2].start
                            || ranges[j2].start + ranges[j2].length <= ranges[i].start);
                    }
                }
                assert(mid[k] == value[k - start]);
            }
        }
        assert forall|k: int| 0 <= k < code.len() && !covered_from(ranges, i, k) implies #[trigger]
            out[k] == code[k] by {
            assert(!(ranges[i].start <= k < ranges[i].start + ranges[i].length)) by {
                if ranges[i].start <= k < ranges[i].start + ranges[i].length {
                    assert(covered_from(ranges, i, k));
                }
            }
            assert(mid[k] == code[k]);
            assert(!covered_from(ranges, i + 1, k)) by {
                if covered_from(ranges, i + 1, k) {
                    let j2 = choose|j2: int|
                        i + 1 <= j2 < ranges.len() && (#[trigger] ranges[j2]).start <= k
                            < ranges[j2].start + ranges[j2].length;
                    assert(covered_from(ranges, i, k));
                }
            }
        }
    }
}

/// `k` falls inside some range of one of the placeholders from index `i` on.
pub open spec fn refs_cover_from(refs: Seq<PlaceholderRef>, i: int, k: int) -> bool {
    exists|j: int| i <= j < refs.len() && covered_from((#[trigger] refs[j]).ranges@, 0, k)
}

/// No two ranges of the table overlap, whether they belong to the same
/// placeholder or to different ones.
pub open spec fn refs_disjoint(refs: Seq<PlaceholderRef>) -> bool {
    &&& forall|j: int| 0 <= j < refs.len() ==> ranges_disjoint((#[trigger] refs[j]).ranges@)
    &&& forall|j: int, j2: int, t: int, t2: int|
        0 <= j < j2 < refs.len() && 0 <= t < (#[trigger] refs[j]).ranges@.len() && 0 <= t2 < (
        #[trigger] refs[j2]).ranges@.len() ==> ((#[trigger] refs[j].ranges@[t]).start
            + refs[j].ranges@[t].length <= (#[trigger] refs[j2].ranges@[t2]).start
            || refs[j2].ranges@[t2].start + refs[j2].ranges@[t2].length
            <= refs[j].ranges@[t].start)
}

/// Law: a resolution pass over a table of pairwise-disjoint placeholders
/// leaves nothing unlinked: each placeholder's ranges hold exactly its
/// resolved value's bytes, and every byte outside the table's ranges is the
/// original code's.
pub proof fn lemma_splice_refs_bytes(
    code: Seq<u8>,
    refs: Seq<PlaceholderRef>,
    facts: Seq<Resolution>,
    i: int,
)
    requires
        0 <= i <= refs.len(),
        first_unresolved(refs, facts, 0) is None,
        refs_fit(refs, facts, code.len() as int),
        refs_disjoint(refs),
    ensures
        splice_refs_spec(code, refs, facts, i).len() == code.len(),
        forall|j: int, t: int, k: int|
            i <= j < refs.len() && 0 <= t < (#[trigger] refs[j]).ranges@.len() && (
            #[trigger] refs[j].ranges@[t]).start <= k < refs[j].ranges@[t].start
                + refs[j].ranges@[t].length ==> #[trigger] splice_refs_spec(code, refs, facts, i)[k]
                == lookup(facts, refs[j].name@).unwrap()[k - refs[j].ranges@[t].start],
        forall|k: int|
            0 <= k < code.len() && !refs_cover_from(refs, i, k) ==> #[trigger] splice_refs_spec(
                code,
                refs,
                facts,
                i,
            )[k] == code[k],
    decreases refs.len() - i,
{
    if i < refs.len() {
        lemma_resolved_when_none_missing(refs, facts, 0, i);
        let v = lookup(facts, refs[i].name@).unwrap();
        let mid = splice_ranges_spec(code, refs[i].ranges@, v, 0);
        lemma_splice_ranges_bytes(code, refs[i].ranges@, v, 0);
        lemma_splice_refs_bytes(mid, refs, facts, i + 1);
        let out = splice_refs_spec(code, refs, facts, i);
        assert(out == splice_refs_spec(mid, refs, facts, i + 1));
        assert forall|j: int, t: int, k: int|
            i <= j < refs.len() && 0 <= t < (#[trigger] refs[j]).ranges@.len() && (
            #[trigger] refs[j].ranges@[t]).start <= k < refs[j].ranges@[t].start
                + refs[j].ranges@[t].length implies #[trigger] out[k] == lookup(
            facts,
            refs[j].name@,
        ).unwrap()[k - refs[j].ranges@[t].start] by {
            if j == i {
                assert(mid[k] == v[k - refs[i].ranges@[t].start]);
                assert(!refs_cover_from(refs, i + 1, k)) by {
                    if refs_cover_from(refs, i + 1, k) {
                        let j2 = choose|j2: int|
                            i + 1 <= j2 < refs.len() && covered_from(
                                (#[trigger] refs[j2]).ranges@,
                                0,
                                k,
                            );
                        let t2 = choose|t2: int|
                            0 <= t2 < refs[j2].ranges@.len() && (#[trigger] refs[j2].ranges@[t2]).start
                                <= k < refs[j2].ranges@[t2].start + refs[j2].ranges@[t2].length;
                        assert(refs[i].ranges@[t].start + refs[i].ranges@[t].length
                            <= refs[j2].ranges@[t2].start || refs[j2].ranges@[t2].start
                            + refs[j2].ranges@[t2].length <= refs[i].ranges@[t].start);
                    }
                }
            }
        }
        assert forall|k: int| 0 <= k < code.len() && !refs_cover_from(refs, i, k) implies #[trigger]
            out[k] == code[k] by {
            assert(!covered_from(refs[i].ranges@, 0, k)) by {
                if covered_from(refs[i].ranges@, 0, k) {
                    assert(refs_cover_from(refs, i, k));
                }
            }
            assert(mid[k] == code[k]);
            assert(!refs_cover_from(refs, i + 1, k)) by {
                if refs_cover_from(refs, i + 1, k) {
                    let j2 = choose|j2: int|
                        i + 1 <= j2 < refs.len() && covered_from((#[trigger] refs[j2]).ranges@, 0, k);
                    assert(refs_cover_from(refs, i, k));
                }
            }
        }
    }
}

/// The artifact's two placeholder tables claim pairwise-disjoint byte
/// ranges, within each table and across them — the way a compiler records
/// placeholders, since one byte cannot await two values.
pub open spec fn tables_disjoint(imm: Seq<PlaceholderRef>, lib: Seq<PlaceholderRef>) -> bool {
    &&& refs_disjoint(imm)
    &&& refs_disjoint(lib)
    &&& forall|j: int, t: int, j2: int, t2: int|
        0 <= j < imm.len() && 0 <= t < (#[trigger] imm[j]).ranges@.len() && 0 <= j2 < lib.len()
            && 0 <= t2 < (#[trigger] lib[j2]).ranges@.len() ==> ((#[trigger] imm[j].ranges@[t]).start
            + imm[j].ranges@[t].length <= (#[trigger] lib[j2].ranges@[t2]).start
            || lib[j2].ranges@[t2].start + lib[j2].ranges@[t2].length <= imm[j].ranges@[t].start)
}

/// Law: when generation succeeds on an artifact whose recorded ranges are
/// pairwise disjoint, the generated bytecode is placeholder-free: it keeps
/// the deployed bytecode's length, every immutable range holds exactly that
/// immutable's resolved value, every library range holds exactly that
/// library's linked address, and every byte outside the recorded ranges is
/// the compiled byte.
pub proof fn lemma_generated_code_placeholder_free(artifact: BuildArtifact, facts: ChainFacts)
    requires
        generation_succeeds(artifact, facts),
        tables_disjoint(artifact.immutable_refs@, artifact.library_refs@),
    ensures
        generated_code(artifact, facts).len() == artifact.deployed_bytecode@.len(),
        forall|j: int, t: int, k: int|
            0 <= j < artifact.immutable_refs@.len() && 0 <= t < (#[trigger] artifact.immutable_refs@[j]).ranges@.len()
                && (#[trigger] artifact.immutable_refs@[j].ranges@[t]).start <= k
                < artifact.immutable_refs@[j].ranges@[t].start
                + artifact.immutable_refs@[j].ranges@[t].length ==> #[trigger] generated_code(
                artifact,
                facts,
            )[k] == lookup(facts.immutable_values@, artifact.immutable_refs@[j].name@).unwrap()[k
                - artifact.immutable_refs@[j].ranges@[t].start],
        forall|j: int, t: int, k: int|
            0 <= j < artifact.library_refs@.len() && 0 <= t < (#[trigger] artifact.library_refs@[j]).ranges@.len()
                && (#[trigger] artifact.library_refs@[j].ranges@[t]).start <= k
                < artifact.library_refs@[j].ranges@[t].start
                + artifact.library_refs@[j].ranges@[t].length ==> #[trigger] generated_code(
                artifact,
                facts,
            )[k] == lookup(facts.library_addresses@, artifact.library_refs@[j].name@).unwrap()[k
                - artifact.library_refs@[j].ranges@[t].start],
        forall|k: int|
            0 <= k < artifact.deployed_bytecode@.len() && !refs_cover_from(
                artifact.immutable_refs@,
                0,
                k,
            ) && !refs_cover_from(artifact.library_refs@, 0, k) ==> #[trigger] generated_code(
                artifact,
                facts,
            )[k] == artifact.deployed_bytecode@[k],
{
    let code = artifact.deployed_bytecode@;
    let imm = artifact.immutable_refs@;
    let lib = artifact.library_refs@;
    let ifacts = facts.immutable_values@;
    let lfacts = facts.library_addresses@;
    let mid = splice_refs_spec(code, imm, ifacts, 0);
    let out = generated_code(artifact, facts);
    lemma_splice_refs_bytes(code, imm, ifacts, 0);
    lemma_splice_refs_bytes(mid, lib, lfacts, 0);
    assert(out == splice_refs_spec(mid, lib, lfacts, 0));
    assert forall|j: int, t: int, k: int|
        0 <= j < imm.len() && 0 <= t < (#[trigger] imm[j]).ranges@.len() && (
        #[trigger] imm[j].ranges@[t]).start <= k < imm[j].ranges@[t].start
            + imm[j].ranges@[t].length implies #[trigger] out[k] == lookup(
        ifacts,
        imm[j].name@,
    ).unwrap()[k - imm[j].ranges@[t].start] by {
        assert(mid[k] == lookup(ifacts, imm[j].name@).unwrap()[k - imm[j].ranges@[t].start]);
        assert(!refs_cover_from(lib, 0, k)) by {
            if refs_cover_from(lib, 0, k) {
                let j2 = choose|j2: int|
                    0 <= j2 < lib.len() && covered_from((#[trigger] lib[j2]).ranges@, 0, k);
                let t2 = choose|t2: int|
                    0 <= t2 < lib[j2].ranges@.len() && (#[trigger] lib[j2].ranges@[t2]).start <= k
                        < lib[j2].ranges@[t2].start + lib[j2].ranges@[t2].length;
                assert(imm[j].ranges@[t].start + imm[j].ranges@[t].length
                    <= lib[j2].ranges@[t2].start || lib[j2].ranges@[t2].start
                    + lib[j2].ranges@[t2].length <= imm[j].ranges@[t].start);
            }
        }
        assert(0 <= k < mid.len());
    }
    assert forall|k: int|
        0 <= k < code.len() && !refs_cover_from(imm, 0, k) && !refs_cover_from(lib, 0, k) implies
        #[trigger] out[k] == code[k] by {
        assert(mid[k] == code[k]);
    }
}

/// Law: when no placeholder is reported missing, every placeholder is in
/// fact resolved by the fact list.
pub proof fn lemma_resolved_when_none_missing(
    refs: Seq<PlaceholderRef>,
    facts: Seq<Resolution>,
    i: int,
    k: int,
)
    requires
        first_unresolved(refs, facts, i) is None,
        0 <= i <= k < refs.len(),
    ensures
        lookup(facts, refs[k].name@) is Some,
    decreases k - i,
{
    if i < k {
        lemma_resolved_when_none_missing(refs, facts, i + 1, k);
    }
}

/// Law: a placeholder without a resolved value is always reported: the
/// resolution pass names some unresolved placeholder, so generation fails
/// rather than proceeding with a partially linked artifact.
pub proof fn lemma_unresolved_placeholder_detected(
    refs: Seq<PlaceholderRef>,
    facts: Seq<Resolution>,
    k: int,
)
    requires
        0 <= k < refs.len(),
        lookup(facts, refs[k].name@) is None,
    ensures
        first_unresolved(refs, facts, 0) is Some,
{
    lemma_unresolved_detected_from(refs, facts, 0, k);
}

/// Helper: an unresolved placeholder at or past `i` makes the scan from `i`
/// report something.
proof fn lemma_unresolved_detected_from(
    refs: Seq<PlaceholderRef>,
    facts: Seq<Resolution>,
    i: int,
    k: int,
)
    requires
        0 <= i <= k < refs.len(),
        lookup(facts, refs[k].name@) is None,
    ensures
        first_unresolved(refs, facts, i) is Some,
    decreases k - i,
{
    if i < k && lookup(facts, refs[i].name@) is Some {
        lemma_unresolved_detected_from(refs, facts, i + 1, k);
    }
}

/// Generation succeeds: every immutable and library placeholder has a
/// resolved value, and every value fits all of its recorded byte ranges.
pub open spec fn generation_succeeds(artifact: BuildArtifact, facts: ChainFacts) -> bool {
    &&& first_unresolved(artifact.immutable_refs@, facts.immutable_values@, 0) is None
    &&& first_unresolved(artifact.library_refs@, facts.library_addresses@, 0) is None
    &&& refs_fit(
        artifact.immutable_refs@,
        facts.immutable_values@,
        artifact.deployed_bytecode@.len() as int,
    )
    &&& refs_fit(
        artifact.library_refs@,
        facts.library_addresses@,
        artifact.deployed_bytecode@.len() as int,
    )
}

/// The finished runtime bytecode: the deployed bytecode with all immutable
/// values spliced in first, then all library addresses, each at its recorded
/// offsets.
pub open spec fn generated_code(artifact: BuildArtifact, facts: ChainFacts) -> Seq<u8> {
    splice_refs_spec(
        splice_refs_spec(
            artifact.deployed_bytecode@,
            artifact.immutable_refs@,
            facts.immutable_values@,
            0,
        ),
        artifact.library_refs@,
        facts.library_addresses@,
        0,
    )
}

/// The exact condition under which generation reports each error: an
/// unresolved immutable names the first immutable placeholder without a
/// value; a refused relink names the first library placeholder the original
/// deployment did not link; incomplete linking means everything resolved but
/// some value does not fit its ranges.
pub open spec fn generation_fails_because(
    artifact: BuildArtifact,
    facts: ChainFacts,
    e: GenerationError,
) -> bool {
    match e {
        GenerationError::UnresolvedImmutable(n) => first_unresolved(
            artifact.immutable_refs@,
            facts.immutable_values@,
            0,
        ) == Some(n@),
        GenerationError::LibraryRelinkNotSupported(n) => {
            &&& first_unresolved(artifact.immutable_refs@, facts.immutable_values@, 0) is None
            &&& first_unresolved(artifact.library_refs@, facts.library_addresses@, 0) == Some(n@)
        },
        GenerationError::IncompleteLinking => {
            &&& first_unresolved(artifact.immutable_refs@, facts.immutable_values@, 0) is None
            &&& first_unresolved(artifact.library_refs@, facts.library_addresses@, 0) is None
            &&& !(refs_fit(
                artifact.immutable_refs@,
                facts.immutable_values@,
                artifact.deployed_bytecode@.len() as int,
            ) && refs_fit(
                artifact.library_refs@,
                facts.library_addresses@,
                artifact.deployed_bytecode@.len() as int,
            ))
        },
    }
}

/// Generates the tweaked deployment for `project` from a compiled artifact
/// and the deployment facts gathered from the chain.
///
/// Succeeds exactly when every immutable placeholder has a resolved value,
/// every library placeholder matches a library the original deployment
/// linked, and every value fits its recorded ranges; the result carries the
/// original target address and the deployed bytecode with all immutable
/// values spliced in first, then all library addresses, each at its recorded
/// offsets. Errors name the first offender in table order.
pub fn generate_tweaked_code(
    project: &ClonedProject,
    artifact: &BuildArtifact,
    facts: &ChainFacts,
) -> (r: Result<TweakedDeployment, GenerationError>)
    ensures
        match r {
            Ok(d) => generation_succeeds(*artifact, *facts) && d.address@ == project.address@
                && d.code@ == generated_code(*artifact, *facts) && d.code@.len()
                == artifact.deployed_bytecode@.len(),
            Err(e) => generation_fails_because(*artifact, *facts, e),
        },
{
    if let Some(name) = find_unresolved(&artifact.immutable_refs, &facts.immutable_values) {
        return Err(GenerationError::UnresolvedImmutable(name));
    }
    if let Some(name) = find_unresolved(&artifact.library_refs, &facts.library_addresses) {
        return Err(GenerationError::LibraryRelinkNotSupported(name));
    }
    let mut code = clone_bytes(&artifact.deployed_bytecode);
    if !splice_refs(&mut code, &artifact.immutable_refs, &facts.immutable_values) {
        return Err(GenerationError::IncompleteLinking);
    }
    if !splice_refs(&mut code, &artifact.library_refs, &facts.library_addresses) {
        return Err(GenerationError::IncompleteLinking);
    }
    let address = clone_bytes(&project.address);
    Ok(TweakedDeployment { address, code })
}

} // verus!
