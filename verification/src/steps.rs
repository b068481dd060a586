//! Step vertices: source-ordered `(x, y)` rows expanded into the orthogonal
//! vertices of a step line. A row with a missing cell ends the current run
//! with one null sentinel row, so the drawn line breaks there instead of
//! connecting across the gap.

use vstd::prelude::*;

use crate::stats::{StepDirection, StepVerticesOptions};

verus! {

/// The vertex rows of a step line, as three columns: `x`, `y` and the index
/// of the run each vertex belongs to. Sentinel rows are null in all three.
#[derive(Debug, Clone, PartialEq)]
pub struct StepVertices<T> {
    pub xs: Vec<Option<T>>,
    pub ys: Vec<Option<T>>,
    pub groups: Vec<Option<usize>>,
}

/// What expanding the first `n` rows gives: the vertex rows (`None` for a
/// sentinel), the last point of the open run if there is one, and the index
/// of the current run.
pub open spec fn step_run<T>(
    xs: Seq<Option<T>>,
    ys: Seq<Option<T>>,
    n: nat,
    direction: StepDirection,
) -> (Seq<Option<(T, T, nat)>>, Option<(T, T)>, nat)
    decreases n,
{
    if n == 0 {
        (Seq::empty(), None, 0)
    } else {
        let (out, prev, g) = step_run(xs, ys, (n - 1) as nat, direction);
        match (xs[n - 1], ys[n - 1]) {
            (Some(x), Some(y)) => match prev {
                Some((px, py)) => {
                    let corner = match direction {
                        StepDirection::Hv => (x, py, g),
                        StepDirection::Vh => (px, y, g),
                    };
                    (out.push(Some(corner)).push(Some((x, y, g))), Some((x, y)), g)
                },
                None => (out.push(Some((x, y, g))), Some((x, y)), g),
            },
            _ => match prev {
                Some(_) => (out.push(None), None, g + 1),
                None => (out, None, g),
            },
        }
    }
}

/// The vertex rows of all rows.
pub open spec fn step_rows<T>(xs: Seq<Option<T>>, ys: Seq<Option<T>>, direction: StepDirection) -> Seq<
    Option<(T, T, nat)>,
> {
    step_run(xs, ys, xs.len(), direction).0
}

/// Whether the three columns hold the given vertex rows.
pub open spec fn columns_hold<T>(v: StepVertices<T>, rows: Seq<Option<(T, T, nat)>>) -> bool {
    &&& v.xs@.len() == rows.len()
    &&& v.ys@.len() == rows.len()
    &&& v.groups@.len() == rows.len()
    &&& forall|k: int|
        #![trigger rows[k]]
        0 <= k < rows.len() ==> match rows[k] {
            Some((x, y, g)) => v.xs@[k] == Some(x) && v.ys@[k] == Some(y) && v.groups@[k] == Some(
                g as usize,
            ),
            None => v.xs@[k] is None && v.ys@[k] is None && v.groups@[k] is None,
        }
}

/// The run state after `n` rows: the open run's last point is the last
/// vertex, runs are numbered by the sentinels before them, and the run index
/// never exceeds the row count.
proof fn lemma_step_run_state<T>(xs: Seq<Option<T>>, ys: Seq<Option<T>>, n: nat, direction: StepDirection)
    ensures
        step_run(xs, ys, n, direction).2 <= n,
        step_run(xs, ys, n, direction).1 matches Some((x, y)) ==> step_run(
            xs,
            ys,
            n,
            direction,
        ).0.len() > 0 && step_run(xs, ys, n, direction).0.last() == Some(
            (x, y, step_run(xs, ys, n, direction).2),
        ),
        step_run(xs, ys, n, direction).1 is None ==> (step_run(xs, ys, n, direction).0.len() == 0
            || step_run(xs, ys, n, direction).0.last() is None),
    decreases n,
{
    if n > 0 {
        lemma_step_run_state(xs, ys, (n - 1) as nat, direction);
    }
}

/// Expand `(x, y)` rows into step vertices: from the second point of a run
/// on, a corner vertex precedes each point (horizontal first: the new `x`
/// at the previous `y`; vertical first: the previous `x` at the new `y`).
/// A row missing either cell closes an open run with one sentinel row.
pub fn step_vertices<T: Copy>(xs: &[Option<T>], ys: &[Option<T>], options: StepVerticesOptions) -> (v:
    StepVertices<T>)
    requires
        xs@.len() == ys@.len(),
    ensures
        columns_hold(v, step_rows(xs@, ys@, options.direction)),
{
    let ghost dir = options.direction;
    let mut out = StepVertices { xs: Vec::new(), ys: Vec::new(), groups: Vec::new() };
    let mut prev: Option<(T, T)> = None;
    let mut group: usize = 0;
    let mut row: usize = 0;
    while row < xs.len()
        invariant
            xs@.len() == ys@.len(),
            row <= xs@.len(),
            dir == options.direction,
            step_run(xs@, ys@, row as nat, dir).1 == prev,
            step_run(xs@, ys@, row as nat, dir).2 == group,
            columns_hold(out, step_run(xs@, ys@, row as nat, dir).0),
        decreases xs@.len() - row,
    {
        proof {
            lemma_step_run_state(xs@, ys@, row as nat, dir);
        }
        let ghost rows = step_run(xs@, ys@, row as nat, dir).0;
        match (xs[row], ys[row]) {
            (Some(x), Some(y)) => {
                match prev {
                    Some((px, py)) => {
                        let (cx, cy) = match options.direction {
                            StepDirection::Hv => (x, py),
                            StepDirection::Vh => (px, y),
                        };
                        out.xs.push(Some(cx));
                        out.ys.push(Some(cy));
                        out.groups.push(Some(group));
                        out.xs.push(Some(x));
                        out.ys.push(Some(y));
                        out.groups.push(Some(group));
                        let ghost next = rows.push(Some((cx, cy, group as nat))).push(
                            Some((x, y, group as nat)),
                        );
                        assert forall|k: int| #![trigger next[k]] 0 <= k < next.len() implies match next[k] {
                            Some((a, b, g)) => out.xs@[k] == Some(a) && out.ys@[k] == Some(b)
                                && out.groups@[k] == Some(g as usize),
                            None => out.xs@[k] is None && out.ys@[k] is None && out.groups@[k] is None,
                        } by {
                            if k < rows.len() {
                                assert(next[k] == rows[k]);
                            }
                        }
                    },
                    None => {
                        out.xs.push(Some(x));
                        out.ys.push(Some(y));
                        out.groups.push(Some(group));
                        let ghost next = rows.push(Some((x, y, group as nat)));
                        assert forall|k: int| #![trigger next[k]] 0 <= k < next.len() implies match next[k] {
                            Some((a, b, g)) => out.xs@[k] == Some(a) && out.ys@[k] == Some(b)
                                && out.groups@[k] == Some(g as usize),
                            None => out.xs@[k] is None && out.ys@[k] is None && out.groups@[k] is None,
                        } by {
                            if k < rows.len() {
                                assert(next[k] == rows[k]);
                            }
                        }
                    },
                }
                prev = Some((x, y));
            },
            _ => {
                if prev.is_some() {
                    out.xs.push(None);
                    out.ys.push(None);
                    out.groups.push(None);
                    let ghost next = rows.push(None::<(T, T, nat)>);
                    assert forall|k: int| #![trigger next[k]] 0 <= k < next.len() implies match next[k] {
                        Some((a, b, g)) => out.xs@[k] == Some(a) && out.ys@[k] == Some(b)
                            && out.groups@[k] == Some(g as usize),
                        None => out.xs@[k] is None && out.ys@[k] is None && out.groups@[k] is None,
                    } by {
                        if k < rows.len() {
                            assert(next[k] == rows[k]);
                        }
                    }
                    group = group + 1;
                }
                prev = None;
            },
        }
        row = row + 1;
    }
    out
}

// ---------------------------------------------------------------------------
// Laws
// ---------------------------------------------------------------------------

/// Whether two vertex rows, when both are vertices, share a coordinate.
pub open spec fn share_coordinate<T>(a: Option<(T, T, nat)>, b: Option<(T, T, nat)>) -> bool {
    match (a, b) {
        (Some((x1, y1, _)), Some((x2, y2, _))) => x1 == x2 || y1 == y2,
        _ => true,
    }
}

/// Consecutive vertices of a run share a coordinate, so every segment of a
/// step line is horizontal or vertical.
pub proof fn lemma_step_segments_are_orthogonal<T>(
    xs: Seq<Option<T>>,
    ys: Seq<Option<T>>,
    n: nat,
    direction: StepDirection,
)
    ensures
        forall|k: int|
            #![trigger step_run(xs, ys, n, direction).0[k]]
            0 <= k < step_run(xs, ys, n, direction).0.len() - 1 ==> share_coordinate(
                step_run(xs, ys, n, direction).0[k],
                step_run(xs, ys, n, direction).0[k + 1],
            ),
    decreases n,
{
    if n > 0 {
        lemma_step_segments_are_orthogonal(xs, ys, (n - 1) as nat, direction);
        lemma_step_run_state(xs, ys, (n - 1) as nat, direction);
        let (prev_rows, prev, g) = step_run(xs, ys, (n - 1) as nat, direction);
        let rows = step_run(xs, ys, n, direction).0;
        assert forall|k: int| #![trigger rows[k]] 0 <= k < rows.len() - 1 implies share_coordinate(
            rows[k],
            rows[k + 1],
        ) by {
            if k < prev_rows.len() - 1 {
                assert(rows[k] == prev_rows[k]);
                assert(rows[k + 1] == prev_rows[k + 1]);
            }
        }
    }
}

/// Sentinels only close runs: the vertex rows never begin with a sentinel
/// and never hold two sentinels in a row.
pub proof fn lemma_sentinels_separate_runs<T>(
    xs: Seq<Option<T>>,
    ys: Seq<Option<T>>,
    n: nat,
    direction: StepDirection,
)
    ensures
        step_run(xs, ys, n, direction).0.len() > 0 ==> step_run(xs, ys, n, direction).0[0] is Some,
        forall|k: int|
            #![trigger step_run(xs, ys, n, direction).0[k]]
            0 <= k < step_run(xs, ys, n, direction).0.len() - 1 ==> (step_run(
                xs,
                ys,
                n,
                direction,
            ).0[k] is Some || step_run(xs, ys, n, direction).0[k + 1] is Some),
    decreases n,
{
    if n > 0 {
        lemma_sentinels_separate_runs(xs, ys, (n - 1) as nat, direction);
        lemma_step_run_state(xs, ys, (n - 1) as nat, direction);
        let prev_rows = step_run(xs, ys, (n - 1) as nat, direction).0;
        let rows = step_run(xs, ys, n, direction).0;
        if prev_rows.len() > 0 {
            assert(rows[0] == prev_rows[0]);
        }
        assert forall|k: int| #![trigger rows[k]] 0 <= k < rows.len() - 1 implies (rows[k] is Some
            || rows[k + 1] is Some) by {
            if k < prev_rows.len() - 1 {
                assert(rows[k] == prev_rows[k]);
                assert(rows[k + 1] == prev_rows[k + 1]);
            }
        }
    }
}

} // verus!
