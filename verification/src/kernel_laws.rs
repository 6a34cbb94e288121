//! What the kernels that are generated hold, cell by cell.
use crate::convolve::{column, lemma_cell, map_rows, row};
use crate::gpu::Complex32Bits;
use crate::kernels::{
    divided, generated, kernel_cells, shifted, shifted_kernel_is_centred, KernelArithmetic,
};
use crate::power::{next_power, next_power_of_next_power};
use vstd::prelude::*;

verus! {

/// A kernel is laid out around the origin of its grid, where rows and columns in the
/// second half count as negative: every cell holds the value at its distance, divided by
/// the sum of all cells if there is one to divide by. Its rows and then its columns are
/// transformed, and the result is rounded, real and imaginary parts alike.
pub proof fn kernels_hold_the_values_at_their_distances<T>(
    ops: KernelArithmetic<T>,
    size: nat,
    count: nat,
    k: int,
    i: int,
    j: int,
)
    requires
        0 <= k < count,
        0 <= i < next_power(size),
        0 <= j < next_power(size),
    ensures
        ({
            let p = next_power(size);
            let (n, half) = (p as int, p as int / 2);
            let around = |a: int|
                if a + half < n {
                    a
                } else {
                    a - n
                };
            let value = |x: int, y: int| (ops.value)(k, x * x + y * y);
            let sum = (ops.sum)(Seq::new(p * p, |q: int| value(q / n - half, q % n - half)));
            let cell = |a: int, b: int|
                match sum {
                    Some(s) => (ops.divide)(value(around(a), around(b)), s),
                    None => value(around(a), around(b)),
                };
            let line = |a: int| (ops.transform)(Seq::new(p, |b: int| (cell(a, b), ops.zero)));
            let out = (ops.transform)(Seq::new(p, |a: int| line(a)[j]))[i];
            &&& generated(ops, size, count).len() == count
            &&& generated(ops, size, count)[k].len() == p * p
            &&& generated(ops, size, count)[k][i * n + j] == (Complex32Bits {
                re: (ops.narrow)(out.0),
                im: (ops.narrow)(out.1),
            })
        }),
{
    next_power_of_next_power(size);
    let p = next_power(size);
    let (n, half) = (p as int, p as int / 2);
    let around = |a: int|
        if a + half < n {
            a
        } else {
            a - n
        };
    let value = |x: int, y: int| (ops.value)(k, x * x + y * y);
    let all = Seq::new(p * p, |q: int| value(q / n - half, q % n - half));
    let own = |d: int| (ops.value)(k, d);
    let cells = kernel_cells(p, own);
    assert(cells =~= all);
    let sum = (ops.sum)(all);
    let cell = |a: int, b: int|
        match sum {
            Some(s) => (ops.divide)(value(around(a), around(b)), s),
            None => value(around(a), around(b)),
        };
    let share = |d: int|
        match sum {
            Some(s) => (ops.divide)(own(d), s),
            None => own(d),
        };
    let parts = divided(cells, ops.sum, ops.divide);
    assert(parts =~= kernel_cells(p, share));
    let grid = shifted(parts, p);
    let data = grid.map_values(|v: T| (v, ops.zero));
    assert(data.len() == p * p);
    assert forall|a: int, b: int| 0 <= a < n && 0 <= b < n implies #[trigger] data[a * n + b] == (
        cell(a, b),
        ops.zero,
    ) by {
        lemma_cell(p, p, b, a);
        shifted_kernel_is_centred(p, share, a, b);
    }
    let line = |a: int| (ops.transform)(Seq::new(p, |b: int| (cell(a, b), ops.zero)));
    let rows = map_rows(data, p, ops.transform);
    assert forall|a: int| 0 <= a < n implies #[trigger] rows[a * n + j] == line(a)[j] by {
        lemma_cell(p, p, j, a);
        let old = row(data, p, a);
        let want = Seq::new(p, |b: int| (cell(a, b), ops.zero));
        assert forall|b: int| 0 <= b < n implies old[b] == want[b] by {
            assert(data[a * n + b] == (cell(a, b), ops.zero));
        }
        assert(old =~= want);
    }
    let old = column(rows, p, p, j);
    let want = Seq::new(p, |a: int| line(a)[j]);
    assert forall|a: int| 0 <= a < n implies old[a] == want[a] by {
        assert(rows[a * n + j] == line(a)[j]);
    }
    assert(old =~= want);
    lemma_cell(p, p, j, i);
}

/// The grid of a kernel is the smallest whose side is a power of two and at least `size`.
pub proof fn kernels_are_padded_to_powers_of_two(size: nat, e: nat)
    ensures
        exists|d: nat| next_power(size) == #[trigger] vstd::arithmetic::power2::pow2(d),
        size <= next_power(size),
        size <= vstd::arithmetic::power2::pow2(e) ==> next_power(size)
            <= vstd::arithmetic::power2::pow2(e),
{
    next_power_of_next_power(size);
}

} // verus!
