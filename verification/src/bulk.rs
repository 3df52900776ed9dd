//! Operations over many heaps at once.

use vstd::prelude::*;
use crate::format::u32_at;
use crate::reader::{walkable, RawHeap};

verus! {

/// The total length of `blobs`.
pub open spec fn sum_lens(blobs: Seq<Vec<u8>>) -> int
    decreases blobs.len(),
{
    if blobs.len() == 0 {
        0
    } else {
        sum_lens(blobs.drop_last()) + blobs.last()@.len()
    }
}

/// No blobs hold no bytes, one blob holds its own length, and the blobs of
/// two lists together hold the bytes of both.
pub proof fn lemma_sum_lens(a: Seq<Vec<u8>>, b: Seq<Vec<u8>>, v: Vec<u8>)
    ensures
        sum_lens(Seq::<Vec<u8>>::empty()) == 0,
        sum_lens(seq![v]) == v@.len(),
        sum_lens(a + b) == sum_lens(a) + sum_lens(b),
    decreases b.len(),
{
    assert(seq![v].drop_last() =~= Seq::<Vec<u8>>::empty());
    assert(seq![v].last() == v);
    assert(sum_lens(seq![v]) == sum_lens(Seq::<Vec<u8>>::empty()) + v@.len());
    if b.len() == 0 {
        assert(a + b =~= a);
    } else {
        lemma_sum_lens(a, b.drop_last(), v);
        assert((a + b).drop_last() =~= a + b.drop_last());
    }
}

/// The total length of the first `i` blobs is at most the total of all of them.
proof fn lemma_sum_lens_prefix(blobs: Seq<Vec<u8>>, i: int)
    requires
        0 <= i <= blobs.len(),
    ensures
        sum_lens(blobs.take(i)) <= sum_lens(blobs),
    decreases blobs.len(),
{
    if i == blobs.len() {
        assert(blobs.take(i) =~= blobs);
    } else {
        assert(blobs.drop_last().take(i) =~= blobs.take(i));
        lemma_sum_lens_prefix(blobs.drop_last(), i);
    }
}

/// The total number of bytes in `blobs`.
pub fn total_bytes(blobs: &[Vec<u8>]) -> (n: usize)
    requires
        sum_lens(blobs@) <= usize::MAX,
    ensures
        n == sum_lens(blobs@),
{
    let mut total: usize = 0;
    let mut i: usize = 0;
    while i < blobs.len()
        invariant
            i <= blobs@.len(),
            sum_lens(blobs@) <= usize::MAX,
            total == sum_lens(blobs@.take(i as int)),
        decreases blobs@.len() - i,
    {
        proof {
            lemma_sum_lens_prefix(blobs@, i + 1);
            assert(blobs@.take(i + 1).drop_last() =~= blobs@.take(i as int));
        }
        total = total + blobs[i].len();
        i = i + 1;
    }
    assert(blobs@.take(i as int) =~= blobs@);
    total
}

/// `blob` holds a heap whose root value can be walked to its end.
pub open spec fn heap_walkable(blob: Seq<u8>) -> bool {
    blob.len() >= 4 && exists|fuel: nat| walkable(blob, u32_at(blob, 0) as int, fuel)
}

/// Walks every value of every heap in `blobs`, `iters` times over; with no
/// pass to make, no heap is read.
pub fn walk_heaps(blobs: &[Vec<u8>], iters: usize)
    requires
        iters > 0 ==> forall|i: int| 0 <= i < blobs@.len() ==> heap_walkable(#[trigger] blobs@[i]@),
{
    let mut k: usize = 0;
    while k < iters
        invariant
            iters > 0 ==> forall|i: int| 0 <= i < blobs@.len() ==> heap_walkable(#[trigger] blobs@[i]@),
        decreases iters - k,
    {
        let mut i: usize = 0;
        while i < blobs.len()
            invariant
                i <= blobs@.len(),
                forall|i: int| 0 <= i < blobs@.len() ==> heap_walkable(#[trigger] blobs@[i]@),
            decreases blobs@.len() - i,
        {
            let b = &blobs[i];
            assert(heap_walkable(blobs@[i as int]@));
            let heap = RawHeap::new(b.as_slice());
            let root = heap.root();
            proof {
                let fuel = choose|fuel: nat| walkable(b@, u32_at(b@, 0) as int, fuel);
                assert(walkable(root@.data, root@.offset, fuel));
            }
            root.visit();
            i = i + 1;
        }
        k = k + 1;
    }
}

} // verus!
