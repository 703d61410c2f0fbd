//! Tables of bins, and the arithmetic of their indices.

use vstd::prelude::*;
use crate::bin::Bin;
use crate::key::Key;

verus! {

/// The number of bins a table starts with.
pub const DEFAULT_CAPACITY: usize = 16;

/// The largest number of bins a table can have.
pub const MAXIMUM_CAPACITY: usize = 0x4000_0000;

/// Whether `n` is a power of two.
pub open spec fn is_pow2(n: u64) -> bool {
    n > 0 && n & ((n - 1) as u64) == 0
}

/// The index of the bin that a table of `n` bins files `hash` under.
pub open spec fn index_of(hash: u64, n: nat) -> int {
    (hash & ((n - 1) as u64)) as int
}

/// An index lies within the table.
pub proof fn lemma_index_in_range(hash: u64, n: u64)
    requires
        n > 0,
    ensures
        0 <= index_of(hash, n as nat) < n,
{
    let m: u64 = (n - 1) as u64;
    assert(hash & m <= m) by (bit_vector);
}

/// Twice a power of two is a power of two.
pub proof fn lemma_pow2_double(n: u64)
    requires
        is_pow2(n),
        n <= 0x4000_0000,
    ensures
        is_pow2((2 * n) as u64),
{
    let d: u64 = (2 * n) as u64;
    assert(n > 0 && n & ((n - 1) as u64) == 0 && n <= 0x4000_0000 && d == 2 * n ==> d > 0 && d & ((
    d - 1) as u64) == 0) by (bit_vector);
}

/// A power of two below the largest capacity can be doubled within it.
pub proof fn lemma_pow2_room(n: u64)
    requires
        is_pow2(n),
        n < 0x4000_0000,
    ensures
        2 * n <= 0x4000_0000,
{
    assert(n > 0 && n & ((n - 1) as u64) == 0 && n < 0x4000_0000 ==> n <= 0x2000_0000)
        by (bit_vector);
}

/// In a table twice the size a hash is filed where it was, or `n` bins
/// further up: the bit `n` of the hash decides.
pub proof fn lemma_index_double(hash: u64, n: u64)
    requires
        is_pow2(n),
        n <= 0x4000_0000,
    ensures
        hash & n == 0 ==> index_of(hash, (2 * n) as nat) == index_of(hash, n as nat),
        hash & n != 0 ==> index_of(hash, (2 * n) as nat) == index_of(hash, n as nat) + n,
{
    let d: u64 = (2 * n) as u64;
    let m: u64 = (n - 1) as u64;
    let dm: u64 = (d - 1) as u64;
    assert(n > 0 && n & m == 0 && n <= 0x4000_0000 && d == 2 * n && m == n - 1 && dm == d - 1 ==> {
        &&& hash & n == 0 ==> hash & dm == hash & m
        &&& hash & n != 0 ==> hash & dm == (hash & m) + n
        &&& hash & m < n
    }) by (bit_vector);
}

/// Every bin is well formed, holds no forwarding marker unless `moved`
/// allows it, and holds only keys that a table of this size files there.
pub open spec fn bins_wf<K: Key, V>(bins: Seq<Bin<K, V>>) -> bool {
    forall|i: int|
        0 <= i < bins.len() ==> {
            &&& (#[trigger] bins[i]).wf()
            &&& forall|k: K| bins[i]@.contains_key(k) ==> index_of(k.spec_hash(), bins.len()) == i
        }
}

/// Makes a table of `n` empty bins.
pub fn empty_bins<K: Key, V>(n: usize) -> (bins: Vec<Bin<K, V>>)
    ensures
        bins@.len() == n,
        forall|i: int| 0 <= i < n ==> #[trigger] bins@[i] is Empty,
        bins_wf(bins@),
{
    let mut bins: Vec<Bin<K, V>> = Vec::new();
    while bins.len() < n
        invariant
            bins@.len() <= n,
            forall|i: int| 0 <= i < bins@.len() ==> #[trigger] bins@[i] is Empty,
        decreases n - bins.len(),
    {
        bins.push(Bin::Empty);
    }
    proof {
        assert forall|i: int| 0 <= i < bins@.len() implies {
            &&& (#[trigger] bins@[i]).wf()
            &&& forall|k: K|
                bins@[i]@.contains_key(k) ==> index_of(k.spec_hash(), bins@.len()) == i
        } by {
            assert(bins@[i] is Empty);
            assert(bins@[i].nodes() =~= Seq::empty());
        }
    }
    bins
}

} // verus!
