//! How a sequence is split among workers.
//!
//! For a sequence of `len` elements and a requested worker count `n`, the
//! effective worker count is `min(n, len)`, raised to one when `n` is zero and
//! the sequence is not empty. Each chunk holds `ceil(len / workers)` elements,
//! the last ones fewer; chunk `i` covers `[i * size, (i + 1) * size)` cut at
//! `len`.
use vstd::arithmetic::div_mod::{lemma_fundamental_div_mod, lemma_fundamental_div_mod_converse};
use vstd::arithmetic::mul::lemma_mul_inequality;
use vstd::prelude::*;

verus! {

/// The number of workers used for `len` elements when `n` are requested.
pub open spec fn workers_of(len: nat, n: nat) -> nat {
    if len == 0 {
        0
    } else if n == 0 {
        1
    } else if n <= len {
        n
    } else {
        len
    }
}

/// The number of elements in each chunk, `ceil(len / workers)`; the last chunks
/// may hold fewer.
pub open spec fn chunk_len_of(len: nat, n: nat) -> nat {
    let w = workers_of(len, n);
    if w == 0 {
        0
    } else {
        ((len + w - 1) / (w as int)) as nat
    }
}

/// `i * size`, cut at `len`.
pub open spec fn offset_of(len: nat, size: nat, i: nat) -> nat {
    if i * size <= len {
        i * size
    } else {
        len
    }
}

/// First index of chunk `i`.
pub open spec fn start_of(len: nat, n: nat, i: nat) -> nat {
    offset_of(len, chunk_len_of(len, n), i)
}

/// One past the last index of chunk `i`.
pub open spec fn end_of(len: nat, n: nat, i: nat) -> nat {
    start_of(len, n, i + 1)
}

/// The chunk that holds index `j`.
pub open spec fn chunk_of(len: nat, n: nat, j: nat) -> nat {
    j / chunk_len_of(len, n)
}

/// Returns the number of workers used for `len` elements when `n` are requested.
pub fn effective_workers(len: usize, n: usize) -> (r: usize)
    ensures
        r == workers_of(len as nat, n as nat),
        len > 0 ==> 1 <= r <= len,
        len == 0 ==> r == 0,
{
    if len == 0 {
        0
    } else if n == 0 {
        1
    } else if n <= len {
        n
    } else {
        len
    }
}

/// Returns the number of elements in each chunk, computed without the
/// intermediate sum `len + workers - 1` that could overflow.
pub fn chunk_size(len: usize, n: usize) -> (r: usize)
    ensures
        r == chunk_len_of(len as nat, n as nat),
        len > 0 ==> 1 <= r <= len,
{
    let w = effective_workers(len, n);
    if w == 0 {
        return 0;
    }
    let q = len / w;
    let m = len % w;
    proof {
        lemma_fundamental_div_mod(len as int, w as int);
        assert(len as int == q * w + m) by (nonlinear_arith)
            requires
                len as int == w * (len as int / w as int) + (len as int % w as int),
                q == len as int / w as int,
                m == len as int % w as int,
        ;
    }
    if m == 0 {
        proof {
            lemma_fundamental_div_mod_converse(
                len + w - 1,
                w as int,
                q as int,
                w - 1,
            );
            assert(1 <= q <= q * w) by (nonlinear_arith)
                requires
                    w >= 1,
                    q >= 0,
                    q * w >= 1,
            ;
        }
        q
    } else {
        proof {
            assert((q + 1) * w == q * w + w) by (nonlinear_arith);
            lemma_fundamental_div_mod_converse(
                len + w - 1,
                w as int,
                q + 1,
                m - 1,
            );
            assert(q + 1 <= q * w + m) by (nonlinear_arith)
                requires
                    w >= 1,
                    q >= 0,
                    m >= 1,
            ;
        }
        q + 1
    }
}

/// Returns `i * size` cut at `len`, without computing a product that could
/// overflow.
fn clamped_offset(len: usize, size: usize, i: usize) -> (r: usize)
    ensures
        r == offset_of(len as nat, size as nat, i as nat),
{
    if size == 0 {
        assert(i * size == 0) by (nonlinear_arith)
            requires
                size == 0,
        ;
        0
    } else if i <= len / size {
        proof {
            lemma_fundamental_div_mod(len as int, size as int);
            lemma_mul_inequality(i as int, len as int / size as int, size as int);
            assert(i * size <= len) by (nonlinear_arith)
                requires
                    len as int == size * (len as int / size as int) + (len as int % size as int),
                    (i as int) * (size as int) <= (len as int / size as int) * (size as int),
                    len as int % size as int >= 0,
            ;
        }
        i * size
    } else {
        proof {
            lemma_fundamental_div_mod(len as int, size as int);
            lemma_mul_inequality(len as int / size as int + 1, i as int, size as int);
            assert(i * size > len) by (nonlinear_arith)
                requires
                    len as int == size * (len as int / size as int) + (len as int % size as int),
                    (len as int / size as int + 1) * (size as int) <= (i as int) * (size as int),
                    (len as int % size as int) < size,
            ;
        }
        len
    }
}

/// Returns the bounds `[start, end)` of chunk `i` of a sequence of `len`
/// elements split for `n` requested workers.
pub fn chunk_range(len: usize, n: usize, i: usize) -> (r: (usize, usize))
    requires
        i < workers_of(len as nat, n as nat),
    ensures
        r.0 == start_of(len as nat, n as nat, i as nat),
        r.1 == end_of(len as nat, n as nat, i as nat),
        r.0 <= r.1 <= len,
{
    let size = chunk_size(len, n);
    proof {
        lemma_offset_monotone(len as nat, size as nat, i as nat, (i + 1) as nat);
    }
    (clamped_offset(len, size, i), clamped_offset(len, size, i + 1))
}

/// Returns the bounds of every chunk, in ascending order: one pair
/// `[start, end)` per worker.
pub fn plan_chunks(len: usize, n: usize) -> (r: Vec<(usize, usize)>)
    ensures
        r@.len() == workers_of(len as nat, n as nat),
        forall|i: int|
            0 <= i < r@.len() ==> #[trigger] r@[i] == (
            start_of(len as nat, n as nat, i as nat) as usize,
            end_of(len as nat, n as nat, i as nat) as usize,
            ),
        forall|i: int| 0 <= i < r@.len() ==> #[trigger] r@[i].0 <= r@[i].1 <= len,
{
    let w = effective_workers(len, n);
    let mut plan: Vec<(usize, usize)> = Vec::new();
    let mut i: usize = 0;
    while i < w
        invariant
            i <= w,
            w == workers_of(len as nat, n as nat),
            plan@.len() == i,
            forall|k: int|
                0 <= k < i ==> #[trigger] plan@[k] == (
                start_of(len as nat, n as nat, k as nat) as usize,
                end_of(len as nat, n as nat, k as nat) as usize,
                ),
            forall|k: int| 0 <= k < i ==> #[trigger] plan@[k].0 <= plan@[k].1 <= len,
        decreases w - i,
    {
        let range = chunk_range(len, n, i);
        plan.push(range);
        i = i + 1;
    }
    plan
}

/// `offset_of` does not decrease as the chunk index grows.
pub proof fn lemma_offset_monotone(len: nat, size: nat, i: nat, k: nat)
    requires
        i <= k,
    ensures
        offset_of(len, size, i) <= offset_of(len, size, k),
        offset_of(len, size, k) <= len,
{
    lemma_mul_inequality(i as int, k as int, size as int);
}

/// The chunk size times the worker count reaches the length, so the chunk
/// after the last worker starts at the end of the sequence.
proof fn lemma_chunks_reach_end(len: nat, n: nat)
    ensures
        start_of(len, n, workers_of(len, n)) == len,
        start_of(len, n, 0) == 0,
{
    let w = workers_of(len, n);
    let size = chunk_len_of(len, n);
    assert(0 * size == 0);
    if w > 0 {
        lemma_fundamental_div_mod(len + w - 1, w as int);
        assert(w * size >= len) by (nonlinear_arith)
            requires
                len + w - 1 == w * ((len + w - 1) / (w as int)) + ((len + w - 1) % (w as int)),
                (len + w - 1) % (w as int) < w,
                size == (len + w - 1) / (w as int),
        ;
    }
}

/// For every length and requested worker count, the chunks partition
/// `0..len`: each lies within the sequence, later chunks never start before
/// earlier ones end, every index `j` lies in chunk `chunk_of(len, n, j)`,
/// and the first starts at zero while the last ends at `len`.
pub proof fn lemma_chunks_partition(len: nat, n: nat)
    ensures
        forall|i: nat|
            i < workers_of(len, n) ==> start_of(len, n, i) <= #[trigger] end_of(len, n, i) <= len,
        forall|i: nat, k: nat|
            i < k < workers_of(len, n) ==> #[trigger] end_of(len, n, i) <= #[trigger] start_of(
                len,
                n,
                k,
            ),
        forall|j: nat|
            j < len ==> {
                let i = #[trigger] chunk_of(len, n, j);
                i < workers_of(len, n) && start_of(len, n, i) <= j && j < end_of(len, n, i)
            },
        len > 0 ==> start_of(len, n, 0) == 0 && end_of(len, n, (workers_of(len, n) - 1) as nat)
            == len,
{
    let w = workers_of(len, n);
    let size = chunk_len_of(len, n);
    lemma_chunks_reach_end(len, n);
    assert forall|i: nat| i < w implies start_of(len, n, i) <= #[trigger] end_of(len, n, i)
        <= len by {
        lemma_offset_monotone(len, size, i, i + 1);
    }
    assert forall|i: nat, k: nat| i < k < w implies #[trigger] end_of(len, n, i)
        <= #[trigger] start_of(len, n, k) by {
        lemma_offset_monotone(len, size, i + 1, k);
    }
    assert forall|j: nat| j < len implies {
        let i = #[trigger] chunk_of(len, n, j);
        i < w && start_of(len, n, i) <= j && j < end_of(len, n, i)
    } by {
        let i = j / size;
        lemma_fundamental_div_mod(j as int, size as int);
        assert(i * size <= j && j < (i + 1) * size) by (nonlinear_arith)
            requires
                j == size * i + (j as int) % (size as int),
                0 <= (j as int) % (size as int) < size,
        ;
        if i >= w {
            lemma_mul_inequality(w as int, i as int, size as int);
        }
        assert(i < w);
        assert(start_of(len, n, i) == i * size);
        assert(end_of(len, n, i) > j);
    }
}

} // verus!
