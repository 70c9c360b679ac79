//! Exact integer reduction over the chunks that `chunks` plans.
//!
//! Elements are `i64` and every sum is kept in `i128`: a sequence that fits in
//! memory has fewer than 2^64 elements, so no partial or total sum can leave
//! the range of `i128`.
use vstd::prelude::*;

use crate::chunks::{
    chunk_len_of,
    chunk_range,
    effective_workers,
    end_of,
    lemma_chunks_partition,
    lemma_offset_monotone,
    start_of,
    workers_of,
};

verus! {

/// The arithmetic sum of a sequence of integers.
pub open spec fn total(s: Seq<i64>) -> int
    decreases s.len(),
{
    if s.len() == 0 {
        0
    } else {
        total(s.drop_last()) + s.last() as int
    }
}

/// The arithmetic sum of a sequence of mathematical integers.
pub open spec fn sum_of(s: Seq<int>) -> int
    decreases s.len(),
{
    if s.len() == 0 {
        0
    } else {
        sum_of(s.drop_last()) + s.last()
    }
}

/// The sum of chunk `i` of `x` split for `n` requested workers.
pub open spec fn chunk_total(x: Seq<i64>, n: nat, i: nat) -> int {
    total(x.subrange(start_of(x.len(), n, i) as int, end_of(x.len(), n, i) as int))
}

/// The partial sums that the workers produce, in chunk order.
pub open spec fn partial_totals(x: Seq<i64>, n: nat) -> Seq<int> {
    Seq::new(workers_of(x.len(), n), |i: int| chunk_total(x, n, i as nat))
}

/// The partial sums added up in ascending chunk order.
pub open spec fn chunked_total(x: Seq<i64>, n: nat) -> int {
    sum_of(partial_totals(x, n))
}

/// A sequence of `k` elements sums to at least `-k * 2^63` and at most
/// `k * (2^63 - 1)`.
proof fn lemma_total_bounds(s: Seq<i64>)
    ensures
        -(s.len() * 0x8000_0000_0000_0000) <= total(s) <= s.len() * 0x7fff_ffff_ffff_ffff,
    decreases s.len(),
{
    if s.len() > 0 {
        lemma_total_bounds(s.drop_last());
    }
}

/// The sum over `[a, c)` is the sum over `[a, b)` plus the sum over `[b, c)`.
proof fn lemma_total_split(s: Seq<i64>, a: int, b: int, c: int)
    requires
        0 <= a <= b <= c <= s.len(),
    ensures
        total(s.subrange(a, c)) == total(s.subrange(a, b)) + total(s.subrange(b, c)),
    decreases c - b,
{
    if c == b {
        assert(s.subrange(b, c) =~= Seq::<i64>::empty());
    } else {
        lemma_total_split(s, a, b, c - 1);
        assert(s.subrange(a, c).drop_last() =~= s.subrange(a, c - 1));
        assert(s.subrange(b, c).drop_last() =~= s.subrange(b, c - 1));
    }
}

/// Extending a range by one element adds that element to its sum.
proof fn lemma_total_step(s: Seq<i64>, a: int, b: int)
    requires
        0 <= a <= b < s.len(),
    ensures
        total(s.subrange(a, b + 1)) == total(s.subrange(a, b)) + s[b] as int,
{
    assert(s.subrange(a, b + 1).drop_last() =~= s.subrange(a, b));
}

/// The sum over a range of at most `usize::MAX` elements lies within `i128`.
proof fn lemma_total_fits(s: Seq<i64>, a: int, b: int)
    requires
        0 <= a <= b <= s.len(),
        b - a <= usize::MAX,
    ensures
        i128::MIN <= total(s.subrange(a, b)) <= i128::MAX,
{
    lemma_total_bounds(s.subrange(a, b));
}

/// Returns the sum of `x[start..end]`.
pub fn chunk_sum(x: &Vec<i64>, start: usize, end: usize) -> (r: i128)
    requires
        start <= end <= x@.len(),
    ensures
        r == total(x@.subrange(start as int, end as int)),
{
    let mut acc: i128 = 0;
    let mut i: usize = start;
    assert(x@.subrange(start as int, start as int) =~= Seq::<i64>::empty());
    while i < end
        invariant
            start <= i <= end <= x@.len(),
            acc == total(x@.subrange(start as int, i as int)),
        decreases end - i,
    {
        proof {
            lemma_total_step(x@, start as int, i as int);
            lemma_total_fits(x@, start as int, i + 1);
        }
        acc = acc + x[i] as i128;
        i = i + 1;
    }
    acc
}

/// The first `k` partial sums add up to the sum of `x` up to where chunk `k`
/// starts.
proof fn lemma_chunk_prefix(x: Seq<i64>, n: nat, k: nat)
    requires
        k <= workers_of(x.len(), n),
    ensures
        sum_of(partial_totals(x, n).take(k as int)) == total(
            x.subrange(0, start_of(x.len(), n, k) as int),
        ),
    decreases k,
{
    let len = x.len();
    let p = partial_totals(x, n);
    if k == 0 {
        assert(0 * chunk_len_of(len, n) == 0);
        assert(p.take(0) =~= Seq::<int>::empty());
        assert(x.subrange(0, 0) =~= Seq::<i64>::empty());
    } else {
        let j = (k - 1) as nat;
        lemma_chunk_prefix(x, n, j);
        assert(p.take(k as int).drop_last() =~= p.take(j as int));
        lemma_offset_monotone(len, chunk_len_of(len, n), 0, j);
        lemma_offset_monotone(len, chunk_len_of(len, n), j, k);
        lemma_total_split(x, 0, start_of(len, n, j) as int, start_of(len, n, k) as int);
    }
}

/// Adding up the chunks' partial sums in chunk order gives the sum of the
/// whole sequence, whatever the requested worker count.
pub proof fn lemma_chunked_total_is_total(x: Seq<i64>, n: nat)
    ensures
        chunked_total(x, n) == total(x),
{
    let w = workers_of(x.len(), n);
    let p = partial_totals(x, n);
    lemma_chunk_prefix(x, n, w);
    assert(p.take(w as int) =~= p);
    lemma_chunks_partition(x.len(), n);
    if x.len() == 0 {
        assert(x =~= Seq::<i64>::empty());
    } else {
        assert(start_of(x.len(), n, w) == end_of(x.len(), n, (w - 1) as nat));
    }
    assert(x.subrange(0, x.len() as int) =~= x);
}

/// Returns the sum of `x`, computed chunk by chunk for `n` requested workers
/// and combined in ascending chunk order. An empty `x` sums to zero for every
/// `n`; a zero `n` on a non-empty `x` is served by one worker.
pub fn sum_integers(x: &Vec<i64>, n: usize) -> (r: i128)
    ensures
        r == chunked_total(x@, n as nat),
        r == total(x@),
{
    let ghost parts = partial_totals(x@, n as nat);
    let len = x.len();
    let w = effective_workers(len, n);
    let mut acc: i128 = 0;
    let mut i: usize = 0;
    assert(parts.take(0) =~= Seq::<int>::empty());
    while i < w
        invariant
            i <= w,
            len == x@.len(),
            w == workers_of(len as nat, n as nat),
            parts == partial_totals(x@, n as nat),
            acc == sum_of(parts.take(i as int)),
        decreases w - i,
    {
        let range = chunk_range(len, n, i);
        let part = chunk_sum(x, range.0, range.1);
        proof {
            lemma_chunk_prefix(x@, n as nat, (i + 1) as nat);
            lemma_total_fits(x@, 0, range.1 as int);
            assert(parts.take(i + 1).drop_last() =~= parts.take(i as int));
        }
        acc = acc + part;
        i = i + 1;
    }
    proof {
        assert(parts.take(w as int) =~= parts);
        lemma_chunked_total_is_total(x@, n as nat);
    }
    acc
}

/// A sequence of `i128` values as mathematical integers.
pub open spec fn as_ints(p: Seq<i128>) -> Seq<int> {
    p.map_values(|v: i128| v as int)
}

/// Every running sum of `s`, from the empty prefix to the whole, lies within
/// `i128`.
pub open spec fn running_sums_fit(s: Seq<int>) -> bool {
    forall|k: int| 0 <= k <= s.len() ==> i128::MIN <= #[trigger] sum_of(s.take(k)) <= i128::MAX
}

/// Returns the sum of the partial results in index order, or `None` when a
/// running sum leaves the range of `i128`.
pub fn combine_partials(partials: &Vec<i128>) -> (r: Option<i128>)
    ensures
        r.is_some() <==> running_sums_fit(as_ints(partials@)),
        r matches Some(v) ==> v == sum_of(as_ints(partials@)),
{
    let ghost s = as_ints(partials@);
    let mut acc: i128 = 0;
    let mut i: usize = 0;
    assert(s.take(0) =~= Seq::<int>::empty());
    while i < partials.len()
        invariant
            i <= partials@.len(),
            s == as_ints(partials@),
            acc == sum_of(s.take(i as int)),
            forall|k: int| 0 <= k <= i ==> i128::MIN <= #[trigger] sum_of(s.take(k)) <= i128::MAX,
        decreases partials@.len() - i,
    {
        assert(s.take(i + 1).drop_last() =~= s.take(i as int));
        match acc.checked_add(partials[i]) {
            Some(next) => {
                acc = next;
            },
            None => {
                assert(s[i as int] == partials@[i as int] as int);
                assert(!(i128::MIN <= sum_of(s.take(i + 1)) <= i128::MAX));
                return None;
            },
        }
        i = i + 1;
    }
    assert(s.take(i as int) =~= s);
    Some(acc)
}

/// Splitting a non-empty sequence among any positive number of workers gives
/// the same sum as a single worker.
pub proof fn lemma_workers_keep_sum(x: Seq<i64>, n: nat)
    requires
        x.len() > 0,
        n >= 1,
    ensures
        chunked_total(x, n) == chunked_total(x, 1),
{
    lemma_chunked_total_is_total(x, n);
    lemma_chunked_total_is_total(x, 1);
}

/// Requesting at least as many workers as there are elements is the same as
/// requesting one worker per element: the same chunks and the same sum.
pub proof fn lemma_surplus_workers_clamp(x: Seq<i64>, n: nat)
    requires
        n >= x.len(),
    ensures
        workers_of(x.len(), n) == workers_of(x.len(), x.len()),
        forall|i: nat| #[trigger] start_of(x.len(), n, i) == start_of(x.len(), x.len(), i),
        chunked_total(x, n) == chunked_total(x, x.len()),
{
    lemma_chunked_total_is_total(x, n);
    lemma_chunked_total_is_total(x, x.len());
}

/// The empty sequence is given no worker and sums to zero, for every
/// requested worker count, zero included.
pub proof fn lemma_empty_sums_to_zero(n: nat)
    ensures
        workers_of(0, n) == 0,
        chunked_total(Seq::<i64>::empty(), n) == 0,
{
    assert(partial_totals(Seq::<i64>::empty(), n) =~= Seq::<int>::empty());
}

/// On a non-empty sequence, requesting zero workers is the same as requesting
/// one: one worker, the same chunks and the same sum.
pub proof fn lemma_zero_workers_as_one(x: Seq<i64>)
    requires
        x.len() > 0,
    ensures
        workers_of(x.len(), 0) == 1,
        workers_of(x.len(), 1) == 1,
        forall|i: nat| #[trigger] start_of(x.len(), 0, i) == start_of(x.len(), 1, i),
        chunked_total(x, 0) == chunked_total(x, 1),
{
    lemma_chunked_total_is_total(x, 0);
    lemma_chunked_total_is_total(x, 1);
}

} // verus!
