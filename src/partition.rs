use vstd::prelude::*;

verus! {

/// First index of the range that worker `i` of `n` gets over an axis of length `len`.
pub open spec fn range_begin(len: int, n: int, i: int) -> int {
    i * (len / n)
}

/// End (exclusive) of the range that worker `i` of `n` gets: the last worker
/// takes everything up to `len`, remainder included.
pub open spec fn range_end(len: int, n: int, i: int) -> int {
    if i == n - 1 {
        len
    } else {
        (i + 1) * (len / n)
    }
}

/// Each range ends where the next one begins.
pub proof fn lemma_ranges_meet(len: int, n: int, i: int)
    requires
        0 <= i,
        i + 1 < n,
    ensures
        range_end(len, n, i) == range_begin(len, n, i + 1),
{
}

/// The first range begins at 0.
pub proof fn lemma_first_range(len: int, n: int)
    ensures
        range_begin(len, n, 0) == 0,
{
    assert(0 * (len / n) == 0) by (nonlinear_arith);
}

/// Splits `[0, len)` into `n` contiguous ranges: each of the first `n - 1`
/// holds `len / n` indices, and the last holds the rest.
pub fn partition(len: usize, n: usize) -> (parts: Vec<(usize, usize)>)
    requires
        1 <= n,
    ensures
        parts@.len() == n,
        forall|i: int|
            0 <= i < n ==> (#[trigger] parts@[i]).0 == range_begin(len as int, n as int, i)
                && parts@[i].1 == range_end(len as int, n as int, i) && parts@[i].0 <= parts@[i].1
                <= len,
{
    let base = len / n;
    let mut parts: Vec<(usize, usize)> = Vec::new();
    let mut i: usize = 0;
    while i < n
        invariant
            0 <= i <= n,
            base == len / n,
            parts@.len() == i,
            forall|j: int|
                0 <= j < i ==> (#[trigger] parts@[j]).0 == range_begin(len as int, n as int, j)
                    && parts@[j].1 == range_end(len as int, n as int, j) && parts@[j].0
                    <= parts@[j].1 <= len,
        decreases n - i,
    {
        assert(i * base <= (i + 1) * base <= len) by (nonlinear_arith)
            requires
                i < n,
                base == len / n,
                1 <= n,
        {
            vstd::arithmetic::div_mod::lemma_fundamental_div_mod(len as int, n as int);
            assert(n * base <= len);
            assert((i + 1) * base <= n * base);
        }
        let begin = i * base;
        let end = if i == n - 1 {
            len
        } else {
            (i + 1) * base
        };
        parts.push((begin, end));
        i = i + 1;
    }
    parts
}

} // verus!
