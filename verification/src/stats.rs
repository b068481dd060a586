//! Option vocabulary of the statistical transforms: histogram bin closure and
//! calendar intervals, step and interval orientations, smoothing methods,
//! summary reducers and two-dimensional grid sizes.

use vstd::prelude::*;

verus! {

/// Which side of a histogram bin is closed.
#[derive(Debug, Clone, Copy, PartialEq, Eq, Structural)]
pub enum BinClosed {
    Left,
    Right,
}

/// A calendar interval for temporal histogram bins.
#[derive(Debug, Clone, Copy, PartialEq, Eq, Structural)]
pub enum BinInterval {
    Minute,
    Hour,
    Day,
    Week,
    Month,
    Quarter,
    Year,
}

/// Options of the two-dimensional rectangular bin transform.
#[derive(Debug, Clone, Copy)]
pub struct Bin2DOptions {
    pub bins: usize,
}

/// Which axis a step line moves along first.
#[derive(Debug, Clone, Copy, PartialEq, Eq, Structural)]
pub enum StepDirection {
    Hv,
    Vh,
}

/// Options of the step-vertex transform.
#[derive(Debug, Clone, Copy)]
pub struct StepVerticesOptions {
    pub direction: StepDirection,
}

impl Default for StepVerticesOptions {
    /// Steps move horizontally first unless asked otherwise.
    fn default() -> (options: Self)
        ensures
            options.direction == StepDirection::Hv,
    {
        StepVerticesOptions { direction: StepDirection::Hv }
    }
}

/// The orientation of interval marks (error bars, ranges).
#[derive(Debug, Clone, Copy, PartialEq, Eq, Structural)]
pub enum IntervalOrientation {
    Vertical,
    Horizontal,
}

/// The smoothing method of the smooth transform.
#[derive(Debug, Clone, Copy, PartialEq, Eq, Structural)]
pub enum SmoothMethod {
    /// Ordinary least-squares linear fit.
    Lm,
    /// Locally weighted (tricube) degree-1 regression.
    Loess,
}

/// Reducers shared by one-dimensional and binned summary stats.
#[derive(Debug, Clone, Copy, PartialEq, Eq, Structural)]
pub enum SummaryReducer {
    Count,
    Mean,
    Min,
    Max,
    Sum,
    Median,
    MeanSe,
}

impl Default for SummaryReducer {
    /// Summaries take the mean unless asked otherwise.
    fn default() -> (reducer: Self)
        ensures
            reducer == SummaryReducer::Mean,
    {
        SummaryReducer::Mean
    }
}

/// Options of the quantile-quantile transform.
#[derive(Debug, Clone, Copy)]
pub struct QqOptions {
    /// Whether a reference line accompanies the points.
    pub reference: bool,
}

impl Default for QqOptions {
    /// The reference line is drawn unless asked otherwise.
    fn default() -> (options: Self)
        ensures
            options.reference,
    {
        QqOptions { reference: true }
    }
}

/// The number of cells of a two-dimensional grid along each axis.
#[derive(Debug, Clone, Copy, PartialEq, Eq, Structural)]
pub struct GridSize {
    pub x: usize,
    pub y: usize,
}

impl GridSize {
    /// A grid with `n` cells along both axes.
    pub fn square(n: usize) -> (size: GridSize)
        ensures
            size.x == n,
            size.y == n,
    {
        GridSize { x: n, y: n }
    }
}

impl Default for GridSize {
    /// Thirty cells along each axis.
    fn default() -> (size: Self)
        ensures
            size.x == 30,
            size.y == 30,
    {
        GridSize::square(30)
    }
}

/// Options of the two-dimensional summary transform.
#[derive(Debug, Clone, Copy)]
pub struct Summary2DOptions {
    pub bins: GridSize,
    pub reducer: SummaryReducer,
}

impl Default for Summary2DOptions {
    /// A thirty-by-thirty grid reduced by the mean.
    fn default() -> (options: Self)
        ensures
            options.bins.x == 30,
            options.bins.y == 30,
            options.reducer == SummaryReducer::Mean,
    {
        Summary2DOptions { bins: GridSize::default(), reducer: SummaryReducer::Mean }
    }
}

/// `value` clamped into `[lo, hi]`.
pub open spec fn clamped(value: int, lo: int, hi: int) -> int {
    if value < lo {
        lo
    } else if value > hi {
        hi
    } else {
        value
    }
}

/// Clamp each axis of a grid size into `[min, max]`.
pub fn normalize_grid_size(size: GridSize, min: usize, max: usize) -> (normalized: GridSize)
    requires
        min <= max,
    ensures
        normalized.x == clamped(size.x as int, min as int, max as int),
        normalized.y == clamped(size.y as int, min as int, max as int),
{
    let x = if size.x < min {
        min
    } else if size.x > max {
        max
    } else {
        size.x
    };
    let y = if size.y < min {
        min
    } else if size.y > max {
        max
    } else {
        size.y
    };
    GridSize { x, y }
}

/// A normalized grid lies inside the bounds, and normalizing it again changes
/// nothing.
pub proof fn lemma_normalize_grid_size_is_idempotent(size: GridSize, min: usize, max: usize)
    requires
        min <= max,
    ensures
        min <= clamped(size.x as int, min as int, max as int) <= max,
        min <= clamped(size.y as int, min as int, max as int) <= max,
        clamped(clamped(size.x as int, min as int, max as int), min as int, max as int)
            == clamped(size.x as int, min as int, max as int),
        clamped(clamped(size.y as int, min as int, max as int), min as int, max as int)
            == clamped(size.y as int, min as int, max as int),
{
}

/// The 53 random-looking bits that place the jitter of row `row`: the
/// SplitMix64 finalizer of `row + salt`, shifted down to 53 bits. The same
/// row and salt always give the same bits.
pub open spec fn jitter_bits_of(row: u64, salt: u64) -> u64 {
    let x = row.wrapping_add(salt).wrapping_add(0x9e37_79b9_7f4a_7c15);
    let x = (x ^ (x >> 30u64)).wrapping_mul(0xbf58_476d_1ce4_e5b9);
    let x = (x ^ (x >> 27u64)).wrapping_mul(0x94d0_49bb_1331_11eb);
    (x ^ (x >> 31u64)) >> 11u64
}

/// The jitter bits of a row; dividing them by 2^53 gives a deterministic
/// offset in `[0, 1)`.
pub fn jitter_bits(row: u64, salt: u64) -> (bits: u64)
    ensures
        bits == jitter_bits_of(row, salt),
        bits < 0x20_0000_0000_0000,
{
    let mut x = row.wrapping_add(salt);
    x = x.wrapping_add(0x9e37_79b9_7f4a_7c15);
    x = (x ^ (x >> 30u64)).wrapping_mul(0xbf58_476d_1ce4_e5b9);
    x = (x ^ (x >> 27u64)).wrapping_mul(0x94d0_49bb_1331_11eb);
    let y = x ^ (x >> 31u64);
    assert(y >> 11u64 < 0x20_0000_0000_0000) by (bit_vector);
    y >> 11u64
}

} // verus!
