//! Independent work spread over the processor's cores.

use crate::bytes::push_all;
use rayon::iter::{IntoParallelIterator, ParallelIterator};
use vstd::prelude::*;

verus! {

/// Calls `f` on `0, 1, .., n - 1` and collects what it returns, in that order.
///
/// This is `rayon`'s parallel iterator over a range of integers with its `map` and `collect`:
/// `map` hands each integer to the function, and `collect` into a vector keeps the order of the
/// range. Each element is therefore something that `f` may return for its index.
#[verifier::external_body]
pub(crate) fn map_indices<R: Send, F: Fn(usize) -> R + Sync + Send>(n: usize, f: F) -> (out: Vec<R>)
    requires
        forall|i: usize| i < n ==> call_requires(f, (i,)),
    ensures
        out@.len() == n,
        forall|i: int| 0 <= i < n ==> call_ensures(f, (i as usize,), #[trigger] out@[i]),
{
    (0..n).into_par_iter().map(f).collect()
}

/// Joins rows of equal length.
pub(crate) fn join_rows(rows: &Vec<Vec<u8>>, row_len: usize) -> (out: Vec<u8>)
    requires
        forall|i: int| 0 <= i < rows@.len() ==> (#[trigger] rows@[i])@.len() == row_len,
    ensures
        out@.len() == rows@.len() * row_len,
        forall|r: int, k: int|
            0 <= r < rows@.len() && 0 <= k < row_len ==> #[trigger] rows@[r]@[k] == out@[r * row_len
                + k],
{
    let mut out: Vec<u8> = Vec::new();
    let mut i: usize = 0;
    while i < rows.len()
        invariant
            i <= rows@.len(),
            forall|j: int| 0 <= j < rows@.len() ==> (#[trigger] rows@[j])@.len() == row_len,
            out@.len() == i * row_len,
            forall|r: int, k: int|
                0 <= r < i && 0 <= k < row_len ==> #[trigger] rows@[r]@[k] == out@[r * row_len + k],
        decreases rows@.len() - i,
    {
        let ghost before = out@;
        push_all(&mut out, rows[i].as_slice());
        assert((i + 1) * row_len == i * row_len + row_len) by (nonlinear_arith);
        assert forall|r: int, k: int| 0 <= r < i + 1 && 0 <= k < row_len implies #[trigger] rows@[r]@[k]
            == out@[r * row_len + k] by {
            if r < i {
                assert(rows@[r]@[k] == before[r * row_len + k]);
                assert(0 <= r * row_len && r * row_len + k < i * row_len) by (nonlinear_arith)
                    requires
                        0 <= r <= i - 1,
                        0 <= k < row_len,
                ;
            }
        }
        i = i + 1;
    }
    out
}

/// Writes rows of equal length one after the other.
pub(crate) fn store_rows(rows: &Vec<Vec<u8>>, row_len: usize, out: &mut [u8])
    requires
        forall|i: int| 0 <= i < rows@.len() ==> (#[trigger] rows@[i])@.len() == row_len,
        old(out)@.len() == rows@.len() * row_len,
    ensures
        final(out)@.len() == old(out)@.len(),
        forall|r: int, k: int|
            0 <= r < rows@.len() && 0 <= k < row_len ==> #[trigger] rows@[r]@[k]
                == final(out)@[r * row_len + k],
{
    let whole: Vec<u8> = join_rows(rows, row_len);
    let mut i: usize = 0;
    while i < out.len()
        invariant
            i <= out@.len(),
            out@.len() == whole@.len(),
            out@.len() == old(out)@.len(),
            forall|k: int| 0 <= k < i ==> out@[k] == whole@[k],
        decreases out@.len() - i,
    {
        out[i] = whole[i];
        i = i + 1;
    }
    assert(out@ =~= whole@);
}

/// The column, the line and the channel of byte `i` of an RGBA8 image.
pub open spec fn column(i: int, width: int) -> int {
    (i / 4) % width
}

pub open spec fn line(i: int, width: int) -> int {
    (i / 4) / width
}

/// Byte `k` of line `y` is byte `y * (width * 4) + k` of the image.
pub proof fn lemma_position(y: int, k: int, width: int)
    requires
        0 <= y,
        0 <= k < width * 4,
    ensures
        column(y * (width * 4) + k, width) == k / 4,
        line(y * (width * 4) + k, width) == y,
        (y * (width * 4) + k) % 4 == k % 4,
        0 <= k / 4 < width,
{
    let i = y * (width * 4) + k;
    let p = y * width;
    assert(i == 4 * p + k) by (nonlinear_arith)
        requires
            i == y * (width * 4) + k,
            p == y * width,
    ;
    assert(i / 4 == p + k / 4);
    let q = i / 4;
    vstd::arithmetic::div_mod::lemma_fundamental_div_mod_converse(q, width, y, k / 4);
}

/// Every byte of an image lies in some line.
pub proof fn lemma_locate(i: int, width: int, height: int)
    requires
        0 < width,
        0 <= i < height * (width * 4),
    ensures
        ({
            let y = i / (width * 4);
            let k = i % (width * 4);
            &&& 0 <= y < height
            &&& 0 <= k < width * 4
            &&& i == y * (width * 4) + k
        }),
{
    let n = width * 4;
    let y = i / n;
    let k = i % n;
    assert(0 <= k < n && i == y * n + k && 0 <= y < height) by (nonlinear_arith)
        requires
            y == i / n,
            k == i % n,
            n > 0,
            0 <= i < height * n,
    ;
}

} // verus!
