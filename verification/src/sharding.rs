//! Sharding of a record stream across workers: worker `rank` of
//! `world_size` keeps the leading run of items whose position lands on
//! its rank, stopping at the first item that does not.

use vstd::prelude::*;

verus! {

/// The number of leading positions of `0 .. len` that land on `rank`
/// modulo `world_size`.
pub open spec fn shard_stop(len: int, world_size: int, rank: int, i: int) -> int
    recommends
        0 <= i <= len,
        world_size > 0,
    decreases len - i,
{
    if i >= len || i % world_size != rank {
        i
    } else {
        shard_stop(len, world_size, rank, i + 1)
    }
}

/// Keep the leading items whose position modulo `world_size` equals
/// `rank`, in order, and drop everything from the first position that
/// does not.
pub fn apply_sharding_filter<T>(iter: Vec<T>, world_size: usize, rank: usize) -> (r: Vec<T>)
    requires
        world_size > 0,
    ensures
        r@ == iter@.take(shard_stop(iter@.len() as int, world_size as int, rank as int, 0)),
{
    let n = iter.len();
    let mut i: usize = 0;
    #[verifier::loop_isolation(false)]
    while i < n && i % world_size == rank
        invariant
            0 <= i <= n,
            shard_stop(n as int, world_size as int, rank as int, 0) == shard_stop(
                n as int,
                world_size as int,
                rank as int,
                i as int,
            ),
        decreases n - i,
    {
        i = i + 1;
    }
    let mut kept = iter;
    kept.truncate(i);
    kept
}

} // verus!
