//! When a function that is handed in computes a mathematical one.
//!
//! The passes, the transforms and the generation of kernels are stated for every
//! mathematical function that the functions handed in compute. These laws say that any
//! function does so whose every result is the one of the mathematical function, for the
//! same arguments in the same order.
use crate::fft::computes;
use crate::kernels::{
    computes_kernels, computes_line, computes_narrow, computes_quotient, computes_sum,
    computes_value, KernelArithmetic,
};
use crate::passes::{
    computes2, computes_finish, computes_fold, computes_gather, computes_gradient, computes_wall,
    Neighbours, Source,
};
use crate::wfft::transforms_lanes;
use vstd::prelude::*;

verus! {

/// A function of two numbers computes what its results say.
pub proof fn results_of_two_numbers<T, F: Fn(T, T) -> T>(run: F, f: spec_fn(T, T) -> T)
    ensures
        computes2(run, f) <==> forall|a: T, b: T, r: T| #[trigger]
            run.ensures((a, b), r) ==> f(a, b) == r,
{
}

/// A butterfly computes what its results say, from the even number, the twiddle factor
/// and the odd number.
pub proof fn results_of_a_butterfly<T, F: Fn(T, T, T) -> (T, T)>(
    run: F,
    f: spec_fn(T, T, T) -> (T, T),
)
    ensures
        computes(run, f) <==> forall|even: T, factor: T, odd: T, r: (T, T)| #[trigger]
            run.ensures((even, factor, odd), r) ==> f(even, factor, odd) == r,
{
}

/// A gradient computes what its results say, from the cells around.
pub proof fn results_of_a_gradient<T, F: Fn(Neighbours<T>) -> (T, T)>(
    run: F,
    f: spec_fn(Neighbours<T>) -> (T, T),
)
    ensures
        computes_gradient(run, f) <==> forall|around: Neighbours<T>, r: (T, T)| #[trigger]
            run.ensures((around,), r) ==> f(around) == r,
{
}

/// A step of a fold computes what its results say, from the sum so far and the cell.
pub proof fn results_of_a_fold<T, F: Fn(T, usize, usize) -> T>(
    run: F,
    f: spec_fn(T, int, int) -> T,
)
    ensures
        computes_fold(run, f) <==> forall|sum: T, first: usize, second: usize, r: T| #[trigger]
            run.ensures((sum, first, second), r) ==> f(sum, first as int, second as int) == r,
{
}

/// What a cell adds for a source is what the results say, from the sum so far, the column
/// and row of the cell, those of the source, and the state of the source.
pub proof fn results_of_a_gathering<
    T,
    F: Fn(T, (usize, usize), (usize, usize), Source<T>) -> T,
>(run: F, f: spec_fn(T, (int, int), (int, int), Source<T>) -> T)
    ensures
        computes_gather(run, f) <==> forall|
            sum: T,
            at: (usize, usize),
            from: (usize, usize),
            source: Source<T>,
            r: T,
        | #[trigger]
            run.ensures((sum, at, from, source), r) ==> f(
                sum,
                (at.0 as int, at.1 as int),
                (from.0 as int, from.1 as int),
                source,
            ) == r,
{
}

/// What is left of the mass of a cell is what the results say.
pub proof fn results_of_a_finish<T, F: Fn(T, Source<T>) -> T>(
    run: F,
    f: spec_fn(T, Source<T>) -> T,
)
    ensures
        computes_finish(run, f) <==> forall|sum: T, own: Source<T>, r: T| #[trigger]
            run.ensures((sum, own), r) ==> f(sum, own) == r,
{
}

/// What an obstacle adds is what the results say, from the sum so far, the squared
/// distance and the obstacle.
pub proof fn results_of_a_wall<T, F: Fn(T, u32, T) -> T>(run: F, f: spec_fn(T, int, T) -> T)
    ensures
        computes_wall(run, f) <==> forall|sum: T, squared: u32, obstacle: T, r: T| #[trigger]
            run.ensures((sum, squared, obstacle), r) ==> f(sum, squared as int, obstacle) == r,
{
}

/// The transform of a lane computes what its results say, from the axis and the lane.
pub proof fn results_of_a_lane<F: Fn(usize, Vec<u64>) -> Vec<u64>>(
    run: F,
    f: spec_fn(int, Seq<u64>) -> Seq<u64>,
)
    ensures
        transforms_lanes(run, f) <==> forall|axis: usize, lane: Vec<u64>, r: Vec<u64>| #[trigger]
            run.ensures((axis, lane), r) ==> f(axis as int, lane@) == r@,
{
}

/// The functions of the generation of kernels compute an arithmetic just if each of them
/// computes its part, and zero is zero.
pub proof fn results_of_kernel_functions<
    V: Fn(usize, i32) -> u64,
    S: Fn(Vec<u64>) -> Option<u64>,
    D: Fn(u64, u64) -> u64,
    F: Fn(Vec<(u64, u64)>) -> Vec<(u64, u64)>,
    N: Fn(u64) -> u32,
>(value: V, sum: S, divide: D, transform: F, narrow: N, ops: KernelArithmetic<u64>)
    ensures
        computes_kernels(value, sum, divide, transform, narrow, ops) <==> {
            &&& ops.zero == 0
            &&& forall|k: usize, squared: i32, r: u64| #[trigger]
                value.ensures((k, squared), r) ==> (ops.value)(k as int, squared as int) == r
            &&& forall|cells: Vec<u64>, r: Option<u64>| #[trigger]
                sum.ensures((cells,), r) ==> (ops.sum)(cells@) == r
            &&& forall|cell: u64, of: u64, r: u64| #[trigger]
                divide.ensures((cell, of), r) ==> (ops.divide)(cell, of) == r
            &&& forall|line: Vec<(u64, u64)>, r: Vec<(u64, u64)>| #[trigger]
                transform.ensures((line,), r) ==> (ops.transform)(line@) == r@
            &&& forall|wide: u64, r: u32| #[trigger]
                narrow.ensures((wide,), r) ==> (ops.narrow)(wide) == r
        },
{
    assert(computes_value(value, ops.value) <==> forall|k: usize, squared: i32, r: u64| #[trigger]
        value.ensures((k, squared), r) ==> (ops.value)(k as int, squared as int) == r);
    assert(computes_sum(sum, ops.sum) <==> forall|cells: Vec<u64>, r: Option<u64>| #[trigger]
        sum.ensures((cells,), r) ==> (ops.sum)(cells@) == r);
    assert(computes_quotient(divide, ops.divide) <==> forall|cell: u64, of: u64, r: u64| #[trigger]
        divide.ensures((cell, of), r) ==> (ops.divide)(cell, of) == r);
    assert(computes_line(transform, ops.transform) <==> forall|
        line: Vec<(u64, u64)>,
        r: Vec<(u64, u64)>,
    | #[trigger]
        transform.ensures((line,), r) ==> (ops.transform)(line@) == r@);
    assert(computes_narrow(narrow, ops.narrow) <==> forall|wide: u64, r: u32| #[trigger]
        narrow.ensures((wide,), r) ==> (ops.narrow)(wide) == r);
}

} // verus!
