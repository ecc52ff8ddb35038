//! Small verified helpers on byte vectors, shared by the generator and the
//! executor model.

use vstd::prelude::*;

verus! {

/// Byte-for-byte equality of two byte vectors.
pub fn bytes_eq(a: &Vec<u8>, b: &Vec<u8>) -> (r: bool)
    ensures
        r == (a@ == b@),
{
    let n = a.len();
    if n != b.len() {
        return false;
    }
    let mut i: usize = 0;
    while i < n
        invariant
            n == a@.len(),
            n == b@.len(),
            i <= n,
            forall|k: int| 0 <= k < i ==> a@[k] == b@[k],
        decreases n - i,
    {
        if a[i] != b[i] {
            return false;
        }
        i += 1;
    }
    proof {
        assert(a@ =~= b@);
    }
    true
}

/// A fresh copy of a byte vector.
pub fn clone_bytes(v: &Vec<u8>) -> (r: Vec<u8>)
    ensures
        r@ == v@,
{
    let n = v.len();
    let mut r: Vec<u8> = Vec::new();
    let mut i: usize = 0;
    while i < n
        invariant
            n == v@.len(),
            i <= n,
            r@ == v@.take(i as int),
        decreases n - i,
    {
        r.push(v[i]);
        proof {
            assert(v@.take(i + 1) =~= v@.take(i as int).push(v@[i as int]));
        }
        i += 1;
    }
    proof {
        assert(v@.take(n as int) =~= v@);
    }
    r
}

/// A copy of `length` bytes of `v` starting at `start`.
pub fn copy_range(v: &Vec<u8>, start: usize, length: usize) -> (r: Vec<u8>)
    requires
        start + length <= v@.len(),
    ensures
        r@ == v@.subrange(start as int, start + length),
{
    let n = v.len();
    let mut r: Vec<u8> = Vec::new();
    let mut i: usize = 0;
    while i < length
        invariant
            n == v@.len(),
            start + length <= n,
            i <= length,
            r@ == v@.subrange(start as int, start + i),
        decreases length - i,
    {
        r.push(v[start + i]);
        proof {
            assert(v@.subrange(start as int, start + i + 1) =~= v@.subrange(
                start as int,
                start + i,
            ).push(v@[start + i]));
        }
        i += 1;
    }
    r
}

} // verus!
