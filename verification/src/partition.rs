//! Division of the body indices among workers: contiguous ranges that
//! together hold every index exactly once.

use vstd::arithmetic::div_mod::lemma_fundamental_div_mod;
use vstd::arithmetic::mul::{lemma_mul_inequality, lemma_mul_is_distributive_add_other_way};
use vstd::prelude::*;

verus! {

/// The indices from `lo` up to, not including, `hi`.
#[derive(Clone, Copy, Debug, PartialEq, Eq, Structural)]
pub struct Chunk {
    pub lo: usize,
    pub hi: usize,
}

impl Chunk {
    /// Whether index `i` lies in this chunk.
    pub open spec fn holds(self, i: int) -> bool {
        self.lo <= i < self.hi
    }
}

/// The number of chunks into which `n` indices are divided for `workers`
/// workers: one for each worker, but never more than there are indices, and
/// never fewer than one.
pub open spec fn chunk_count(n: nat, workers: nat) -> nat {
    if n == 0 || workers == 0 {
        1
    } else if workers < n {
        workers
    } else {
        n
    }
}

/// The first index of chunk `k` when `n` indices are divided into `count`
/// chunks: the first `n % count` chunks hold one index more than the others.
pub open spec fn chunk_start(n: nat, count: nat, k: nat) -> nat
    recommends
        count > 0,
{
    let extra = n % count;
    k * (n / count) + if k < extra {
        k
    } else {
        extra
    }
}

/// Chunk `k` of the division of `n` indices into `count` chunks.
pub open spec fn chunk_at(n: nat, count: nat, k: nat) -> (nat, nat)
    recommends
        count > 0,
{
    (chunk_start(n, count, k), chunk_start(n, count, k + 1))
}

/// `chunks` divides the indices below `n`: the first chunk starts at 0, each
/// chunk starts where the one before it ends, and the last ends at `n`.
pub open spec fn covers(chunks: Seq<Chunk>, n: nat) -> bool {
    &&& chunks.len() > 0
    &&& chunks[0].lo == 0
    &&& chunks[chunks.len() - 1].hi == n
    &&& forall|k: int| 0 <= k < chunks.len() ==> (#[trigger] chunks[k]).lo <= chunks[k].hi
    &&& forall|k: int| 0 <= k < chunks.len() - 1 ==> (#[trigger] chunks[k]).hi == chunks[k + 1].lo
}

/// `chunks` is the balanced division of `n` indices for `workers` workers.
pub open spec fn is_partition(chunks: Seq<Chunk>, n: nat, workers: nat) -> bool {
    &&& chunks.len() == chunk_count(n, workers)
    &&& forall|k: int|
        0 <= k < chunks.len() ==> ((#[trigger] chunks[k]).lo as nat, chunks[k].hi as nat)
            == chunk_at(n, chunk_count(n, workers), k as nat)
}

/// The starts of consecutive chunks differ by the chunk's size, and the
/// chunk after the last would start at `n`.
pub proof fn lemma_chunk_start(n: nat, count: nat, k: nat)
    requires
        count > 0,
        k < count,
    ensures
        chunk_start(n, count, 0) == 0,
        chunk_start(n, count, count) == n,
        chunk_start(n, count, k + 1) == chunk_start(n, count, k) + n / count + if k < n % count {
            1nat
        } else {
            0nat
        },
        chunk_start(n, count, k + 1) <= n,
{
    let base = n / count;
    let extra = n % count;
    lemma_fundamental_div_mod(n as int, count as int);
    assert(count * base == base * count) by (nonlinear_arith);
    assert((k + 1) * base == k * base + base) by (nonlinear_arith);
    assert((k + 1) * base <= count * base) by (nonlinear_arith)
        requires
            k + 1 <= count,
            base >= 0,
    ;
}

/// In a division of the indices below `n`, a chunk ends no later than any
/// later chunk starts.
pub proof fn lemma_chunks_ordered(chunks: Seq<Chunk>, n: nat, a: int, b: int)
    requires
        covers(chunks, n),
        0 <= a < b < chunks.len(),
    ensures
        chunks[a].hi <= chunks[b].lo,
    decreases b - a,
{
    if a + 1 < b {
        lemma_chunks_ordered(chunks, n, a, b - 1);
        assert(chunks[b - 1].lo <= chunks[b - 1].hi);
        assert(chunks[b - 1].hi == chunks[b - 1 + 1].lo);
    } else {
        assert(chunks[a].hi == chunks[a + 1].lo);
    }
}

/// Every chunk of a division of the indices below `n` ends at or before `n`.
pub proof fn lemma_chunk_bounded(chunks: Seq<Chunk>, n: nat, k: int)
    requires
        covers(chunks, n),
        0 <= k < chunks.len(),
    ensures
        chunks[k].lo <= chunks[k].hi <= n,
{
    let last = chunks.len() - 1;
    if k < last {
        lemma_chunks_ordered(chunks, n, k, last);
        assert(chunks[last].lo <= chunks[last].hi);
    }
}

/// A division of the indices below `n` is a disjoint cover: each index lies
/// in one chunk, and in no other.
pub proof fn lemma_disjoint_cover(chunks: Seq<Chunk>, n: nat, i: int)
    requires
        covers(chunks, n),
        0 <= i < n,
    ensures
        exists|k: int| 0 <= k < chunks.len() && (#[trigger] chunks[k]).holds(i),
        forall|a: int, b: int|
            0 <= a < chunks.len() && 0 <= b < chunks.len() && (#[trigger] chunks[a]).holds(i) && (
            #[trigger] chunks[b]).holds(i) ==> a == b,
{
    lemma_holder_exists(chunks, n, i, chunks.len() - 1);
    assert forall|a: int, b: int|
        0 <= a < chunks.len() && 0 <= b < chunks.len() && (#[trigger] chunks[a]).holds(i) && (
        #[trigger] chunks[b]).holds(i) implies a == b by {
        if a < b {
            lemma_chunks_ordered(chunks, n, a, b);
        } else if b < a {
            lemma_chunks_ordered(chunks, n, b, a);
        }
    }
}

/// An index below the end of chunk `upto` lies in that chunk or in one
/// before it.
proof fn lemma_holder_exists(chunks: Seq<Chunk>, n: nat, i: int, upto: int)
    requires
        covers(chunks, n),
        0 <= upto < chunks.len(),
        0 <= i < chunks[upto].hi,
    ensures
        exists|k: int| 0 <= k <= upto && (#[trigger] chunks[k]).holds(i),
    decreases upto,
{
    if chunks[upto].lo <= i {
        assert(chunks[upto].holds(i));
    } else {
        assert(upto > 0);
        assert(chunks[upto - 1].hi == chunks[upto - 1 + 1].lo);
        lemma_holder_exists(chunks, n, i, upto - 1);
    }
}

/// The balanced division is a division: it covers the indices below `n`.
pub proof fn lemma_partition_covers(chunks: Seq<Chunk>, n: nat, workers: nat)
    requires
        is_partition(chunks, n, workers),
    ensures
        covers(chunks, n),
{
    let count = chunk_count(n, workers);
    lemma_chunk_start(n, count, 0);
    assert forall|k: int| 0 <= k < chunks.len() implies (#[trigger] chunks[k]).lo
        <= chunks[k].hi by {
        lemma_chunk_start(n, count, k as nat);
    }
    assert(chunks[0].lo == 0);
    lemma_chunk_start(n, count, (count - 1) as nat);
    assert(chunks[chunks.len() - 1].hi == n);
}

/// The number of chunks for `n` indices and `workers` workers.
pub fn count_chunks(n: usize, workers: usize) -> (count: usize)
    ensures
        count == chunk_count(n as nat, workers as nat),
{
    if n == 0 || workers == 0 {
        1
    } else if workers < n {
        workers
    } else {
        n
    }
}

/// Divides the indices below `n` among `workers` workers, in balanced
/// contiguous chunks.
pub fn partition(n: usize, workers: usize) -> (chunks: Vec<Chunk>)
    ensures
        is_partition(chunks@, n as nat, workers as nat),
        covers(chunks@, n as nat),
{
    let count = count_chunks(n, workers);
    let base = n / count;
    let extra = n % count;
    let mut chunks: Vec<Chunk> = Vec::new();
    let mut lo: usize = 0;
    let mut k: usize = 0;
    proof {
        lemma_chunk_start(n as nat, count as nat, 0);
    }
    while k < count
        invariant
            count == chunk_count(n as nat, workers as nat),
            count > 0,
            base == n / count,
            extra == n % count,
            k <= count,
            chunks@.len() == k,
            lo == chunk_start(n as nat, count as nat, k as nat),
            lo <= n,
            forall|j: int|
                0 <= j < k ==> ((#[trigger] chunks@[j]).lo as nat, chunks@[j].hi as nat)
                    == chunk_at(n as nat, count as nat, j as nat),
        decreases count - k,
    {
        proof {
            lemma_chunk_start(n as nat, count as nat, k as nat);
        }
        let size: usize = if k < extra {
            base + 1
        } else {
            base
        };
        let hi: usize = lo + size;
        chunks.push(Chunk { lo, hi });
        lo = hi;
        k = k + 1;
    }
    proof {
        lemma_partition_covers(chunks@, n as nat, workers as nat);
    }
    chunks
}

/// What each chunk holds of an array: for each chunk, in order, the entries
/// at its indices.
pub open spec fn parts_of<T>(whole: Seq<T>, chunks: Seq<Chunk>) -> Seq<Seq<T>> {
    Seq::new(chunks.len(), |k: int| whole.subrange(chunks[k].lo as int, chunks[k].hi as int))
}

/// The first `k` parts, joined in order.
pub open spec fn assembled<T>(parts: Seq<Seq<T>>, k: nat) -> Seq<T>
    decreases k,
{
    if k == 0 {
        Seq::empty()
    } else {
        assembled(parts, (k - 1) as nat) + parts[k - 1]
    }
}

/// Joining what the first `k` chunks of a division hold gives the array up
/// to the end of chunk `k - 1`.
proof fn lemma_assembled_prefix<T>(whole: Seq<T>, chunks: Seq<Chunk>, k: nat)
    requires
        covers(chunks, whole.len()),
        1 <= k <= chunks.len(),
    ensures
        assembled(parts_of(whole, chunks), k) == whole.subrange(0, chunks[k - 1].hi as int),
    decreases k,
{
    let parts = parts_of(whole, chunks);
    lemma_chunk_bounded(chunks, whole.len(), k - 1);
    if k == 1 {
        assert(assembled(parts, 0) =~= Seq::<T>::empty());
        assert(assembled(parts, 1) =~= whole.subrange(0, chunks[0].hi as int));
    } else {
        lemma_assembled_prefix(whole, chunks, (k - 1) as nat);
        lemma_chunk_bounded(chunks, whole.len(), k - 2);
        assert(chunks[k - 2].hi == chunks[k - 2 + 1].lo);
        assert(assembled(parts, k) =~= whole.subrange(0, chunks[k - 1].hi as int));
    }
}

/// Each index is written once: what the chunks of a division hold, joined
/// in order, is the whole array.
pub proof fn lemma_assembled_whole<T>(whole: Seq<T>, chunks: Seq<Chunk>)
    requires
        covers(chunks, whole.len()),
    ensures
        assembled(parts_of(whole, chunks), chunks.len()) == whole,
{
    lemma_assembled_prefix(whole, chunks, chunks.len());
    assert(whole.subrange(0, whole.len() as int) =~= whole);
}

/// An array computed chunk by chunk is the same array for any two numbers
/// of workers.
pub proof fn lemma_workers_invariant<T>(
    whole: Seq<T>,
    first: Seq<Chunk>,
    first_workers: nat,
    second: Seq<Chunk>,
    second_workers: nat,
)
    requires
        is_partition(first, whole.len(), first_workers),
        is_partition(second, whole.len(), second_workers),
    ensures
        assembled(parts_of(whole, first), first.len()) == assembled(
            parts_of(whole, second),
            second.len(),
        ),
{
    lemma_partition_covers(first, whole.len(), first_workers);
    lemma_partition_covers(second, whole.len(), second_workers);
    lemma_assembled_whole(whole, first);
    lemma_assembled_whole(whole, second);
}

} // verus!
