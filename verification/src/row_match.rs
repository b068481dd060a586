//! Matching child rows to a host row by key columns (glyph and inset keys):
//! a child row matches when every key cell equals the host's under the
//! data-value comparison, which never matches missing values or NaN, treats
//! negative and positive zero as equal, compares integers exactly and an
//! integer with a float by the integer's float value.

use vstd::prelude::*;

use crate::temporal::TemporalPrecision;
use crate::text::str_equal;

verus! {

/// A key cell as matching sees it. Floats are held by their IEEE-754 bits,
/// and an integer also carries the bits of its value converted to a float.
#[derive(Debug, Clone, PartialEq)]
pub enum MatchCell {
    /// Null, a geometry, or no such column.
    Missing,
    Bool(bool),
    Int { value: i64, float_bits: u64 },
    Float(u64),
    Temporal { micros: i64, precision: TemporalPrecision },
    Text(String),
}

/// Whether float bits are a NaN.
pub open spec fn is_nan_bits(b: u64) -> bool {
    (b & 0x7ff0_0000_0000_0000u64) == 0x7ff0_0000_0000_0000u64 && (b & 0x000f_ffff_ffff_ffffu64)
        != 0
}

/// Float bits with negative zero replaced by zero.
pub open spec fn zero_normalized(b: u64) -> u64 {
    if b & 0x7fff_ffff_ffff_ffffu64 == 0 {
        0
    } else {
        b
    }
}

/// Whether two floats, given by their bits, compare equal: neither is NaN
/// and they are the same number (either zero equals the other).
pub open spec fn floats_equal(a: u64, b: u64) -> bool {
    !is_nan_bits(a) && !is_nan_bits(b) && zero_normalized(a) == zero_normalized(b)
}

/// Whether a child key cell matches a host key cell.
pub open spec fn cells_match(c: MatchCell, h: MatchCell) -> bool {
    match (c, h) {
        (MatchCell::Int { value: a, .. }, MatchCell::Int { value: b, .. }) => a == b,
        (MatchCell::Int { float_bits: a, .. }, MatchCell::Float(b)) => floats_equal(a, b),
        (MatchCell::Float(a), MatchCell::Int { float_bits: b, .. }) => floats_equal(a, b),
        (MatchCell::Float(a), MatchCell::Float(b)) => floats_equal(a, b),
        (MatchCell::Bool(a), MatchCell::Bool(b)) => a == b,
        (
            MatchCell::Temporal { micros: a, precision: p },
            MatchCell::Temporal { micros: b, precision: q },
        ) => a == b && p == q,
        (MatchCell::Text(a), MatchCell::Text(b)) => a@ == b@,
        _ => false,
    }
}

fn is_nan(b: u64) -> (nan: bool)
    ensures
        nan == is_nan_bits(b),
{
    (b & 0x7ff0_0000_0000_0000u64) == 0x7ff0_0000_0000_0000u64 && (b & 0x000f_ffff_ffff_ffffu64)
        != 0
}

fn normalize_zero(b: u64) -> (n: u64)
    ensures
        n == zero_normalized(b),
{
    if b & 0x7fff_ffff_ffff_ffffu64 == 0 {
        0
    } else {
        b
    }
}

fn floats_match(a: u64, b: u64) -> (eq: bool)
    ensures
        eq == floats_equal(a, b),
{
    !is_nan(a) && !is_nan(b) && normalize_zero(a) == normalize_zero(b)
}

/// Whether a child key cell matches a host key cell.
pub fn cell_matches(c: &MatchCell, h: &MatchCell) -> (m: bool)
    ensures
        m == cells_match(*c, *h),
{
    match (c, h) {
        (MatchCell::Int { value: a, .. }, MatchCell::Int { value: b, .. }) => *a == *b,
        (MatchCell::Int { float_bits: a, .. }, MatchCell::Float(b)) => floats_match(*a, *b),
        (MatchCell::Float(a), MatchCell::Int { float_bits: b, .. }) => floats_match(*a, *b),
        (MatchCell::Float(a), MatchCell::Float(b)) => floats_match(*a, *b),
        (MatchCell::Bool(a), MatchCell::Bool(b)) => *a == *b,
        (
            MatchCell::Temporal { micros: a, precision: p },
            MatchCell::Temporal { micros: b, precision: q },
        ) => *a == *b && *p == *q,
        (MatchCell::Text(a), MatchCell::Text(b)) => str_equal(a.as_str(), b.as_str()),
        _ => false,
    }
}

/// Whether child row `r` matches the host: every key column's cell in that
/// row matches the host's cell of the same key.
pub open spec fn row_matches(columns: Seq<Vec<MatchCell>>, host: Seq<MatchCell>, r: int) -> bool {
    forall|k: int| 0 <= k < columns.len() ==> cells_match(#[trigger] columns[k]@[r], host[k])
}

/// The child rows below `n` that match the host, in ascending order.
pub open spec fn matching_rows(columns: Seq<Vec<MatchCell>>, host: Seq<MatchCell>, n: nat) -> Seq<
    usize,
>
    decreases n,
{
    if n == 0 {
        Seq::empty()
    } else {
        let before = matching_rows(columns, host, (n - 1) as nat);
        if row_matches(columns, host, n - 1) {
            before.push((n - 1) as usize)
        } else {
            before
        }
    }
}

/// The key columns of a child table, one cell per row in each, indexed for
/// matching against host rows.
///
/// The columns are scanned row by row rather than bucketed by a key:
/// matching is not equality of cells (a NaN or missing cell matches nothing,
/// `-0.0` matches `0.0`, an integer matches another integer by value and a
/// float by its value converted to a float). A bucket key that every
/// matching pair shares would have to be computed from an integer's value as
/// a float, which this library does not compute; the float bits an integer
/// cell carries are a separate field that matching between integers does
/// not read. The scan yields the matching rows in ascending order by
/// construction.
pub struct MatchIndex {
    rows: usize,
    columns: Vec<Vec<MatchCell>>,
}

impl MatchIndex {
    /// The number of child rows.
    pub closed spec fn row_count(&self) -> nat {
        self.rows as nat
    }

    /// The key columns.
    pub closed spec fn key_columns(&self) -> Seq<Vec<MatchCell>> {
        self.columns@
    }

    /// Index `rows` child rows by their key columns (one column per key,
    /// each with a cell for every row; no key columns match every row).
    pub fn build(rows: usize, columns: Vec<Vec<MatchCell>>) -> (index: MatchIndex)
        requires
            forall|k: int| 0 <= k < columns@.len() ==> (#[trigger] columns@[k])@.len() == rows,
        ensures
            index.row_count() == rows,
            index.key_columns() == columns@,
    {
        MatchIndex { rows, columns }
    }

    /// The child rows that match the host's key cells (one per key column),
    /// in ascending order.
    pub fn matched_rows(&self, host: &[MatchCell]) -> (matched: Vec<usize>)
        requires
            host@.len() == self.key_columns().len(),
            forall|k: int|
                0 <= k < self.key_columns().len() ==> (#[trigger] self.key_columns()[k])@.len()
                    == self.row_count(),
        ensures
            matched@ == matching_rows(self.key_columns(), host@, self.row_count()),
    {
        let mut matched: Vec<usize> = Vec::new();
        let mut r: usize = 0;
        while r < self.rows
            invariant
                r <= self.rows,
                host@.len() == self.columns@.len(),
                forall|k: int|
                    0 <= k < self.columns@.len() ==> (#[trigger] self.columns@[k])@.len()
                        == self.rows,
                matched@ == matching_rows(self.columns@, host@, r as nat),
            decreases self.rows - r,
        {
            let mut all = true;
            let mut k: usize = 0;
            while k < self.columns.len()
                invariant
                    r < self.rows,
                    k <= self.columns@.len(),
                    host@.len() == self.columns@.len(),
                    forall|j: int|
                        0 <= j < self.columns@.len() ==> (#[trigger] self.columns@[j])@.len()
                            == self.rows,
                    all == forall|j: int|
                        0 <= j < k ==> cells_match(#[trigger] self.columns@[j]@[r as int], host@[j]),
                decreases self.columns@.len() - k,
            {
                let m = cell_matches(&self.columns[k][r], &host[k]);
                all = all && m;
                k = k + 1;
            }
            if all {
                matched.push(r);
            }
            r = r + 1;
        }
        matched
    }
}

// ---------------------------------------------------------------------------
// Laws
// ---------------------------------------------------------------------------

/// Matching is symmetric: a child cell matches a host cell exactly when the
/// host cell would match it as a child.
pub proof fn lemma_cells_match_symmetric(a: MatchCell, b: MatchCell)
    ensures
        cells_match(a, b) == cells_match(b, a),
{
}

/// Missing cells and NaN never match anything.
pub proof fn lemma_missing_and_nan_never_match(b: MatchCell, nan: u64)
    requires
        is_nan_bits(nan),
    ensures
        !cells_match(MatchCell::Missing, b),
        !cells_match(b, MatchCell::Missing),
        !cells_match(MatchCell::Float(nan), b),
        !cells_match(b, MatchCell::Float(nan)),
{
}

/// The matched rows are in range and strictly ascending, so no child row is
/// returned twice.
pub proof fn lemma_matching_rows_ascending(columns: Seq<Vec<MatchCell>>, host: Seq<MatchCell>, n: nat)
    requires
        n <= usize::MAX,
    ensures
        forall|i: int|
            0 <= i < matching_rows(columns, host, n).len() ==> (#[trigger] matching_rows(
                columns,
                host,
                n,
            )[i]) < n && row_matches(columns, host, matching_rows(columns, host, n)[i] as int),
        forall|i: int, j: int|
            0 <= i < j < matching_rows(columns, host, n).len() ==> matching_rows(columns, host, n)[i]
                < matching_rows(columns, host, n)[j],
    decreases n,
{
    if n > 0 {
        lemma_matching_rows_ascending(columns, host, (n - 1) as nat);
        let before = matching_rows(columns, host, (n - 1) as nat);
        let rows = matching_rows(columns, host, n);
        if row_matches(columns, host, n - 1) {
            assert(rows == before.push((n - 1) as usize));
            assert(((n - 1) as usize) as int == n - 1);
            assert forall|i: int| 0 <= i < rows.len() implies (#[trigger] rows[i]) < n
                && row_matches(columns, host, rows[i] as int) by {
                if i < before.len() {
                    assert(rows[i] == before[i]);
                }
            }
            assert forall|i: int, j: int| 0 <= i < j < rows.len() implies rows[i] < rows[j] by {
                assert(rows[i] == before[i]);
                if j < before.len() {
                    assert(rows[j] == before[j]);
                }
            }
        }
    }
}

} // verus!
