//! Row-index sets: the union of the rows that several glyph or inset matches
//! select, in ascending order without repeats.

use vstd::prelude::*;

verus! {

/// Every element is smaller than the next one.
pub open spec fn strictly_increasing(s: Seq<usize>) -> bool {
    forall|i: int, j: int| 0 <= i < j < s.len() ==> s[i] < s[j]
}

/// Whether some list of `lists` holds `row`.
pub open spec fn listed(lists: Seq<Vec<usize>>, row: usize) -> bool {
    exists|i: int| 0 <= i < lists.len() && #[trigger] lists[i]@.contains(row)
}

/// Insert `x` into a strictly increasing vector, keeping it strictly
/// increasing; nothing changes when `x` is already there.
fn insert_sorted(v: &mut Vec<usize>, x: usize)
    requires
        strictly_increasing(old(v)@),
    ensures
        strictly_increasing(final(v)@),
        forall|y: usize| #[trigger] final(v)@.contains(y) <==> (old(v)@.contains(y) || y == x),
{
    let mut i: usize = 0;
    while i < v.len() && v[i] < x
        invariant
            i <= v@.len(),
            strictly_increasing(v@),
            forall|k: int| 0 <= k < i ==> v@[k] < x,
        decreases v@.len() - i,
    {
        i = i + 1;
    }
    if i < v.len() && v[i] == x {
        assert(v@[i as int] == x);
        assert(v@.contains(x));
        assert(v@ == old(v)@);
        return;
    }
    let ghost before = v@;
    assert(before == old(v)@);
    v.insert(i, x);
    assert(v@ =~= before.subrange(0, i as int).push(x) + before.subrange(i as int, before.len() as int));
    assert forall|a: int, b: int| 0 <= a < b < v@.len() implies v@[a] < v@[b] by {
        if b < i {
            assert(v@[a] == before[a] && v@[b] == before[b]);
        } else if b == i {
            assert(v@[a] == before[a]);
        } else if a == i {
            assert(v@[b] == before[b - 1]);
            assert(before[i as int] > x);
            if b - 1 > i {
                assert(before[i as int] < before[b - 1]);
            }
        } else if a < i {
            assert(v@[a] == before[a] && v@[b] == before[b - 1]);
        } else {
            assert(v@[a] == before[a - 1] && v@[b] == before[b - 1]);
        }
    }
    assert forall|y: usize| v@.contains(y) <==> (before.contains(y) || y == x) by {
        if v@.contains(y) {
            let k = choose|k: int| 0 <= k < v@.len() && v@[k] == y;
            if k < i {
                assert(before[k] == y);
            } else if k > i {
                assert(before[k - 1] == y);
            }
        }
        if before.contains(y) {
            let k = choose|k: int| 0 <= k < before.len() && before[k] == y;
            if k < i {
                assert(v@[k] == y);
            } else {
                assert(v@[k + 1] == y);
            }
        }
        if y == x {
            assert(v@[i as int] == x);
        }
    }
    assert(forall|y: usize| #[trigger] v@.contains(y) <==> (old(v)@.contains(y) || y == x));
}

/// The rows that any of the match lists selects, ascending and without
/// repeats.
pub fn union_rows(matches: &[Vec<usize>]) -> (rows: Vec<usize>)
    ensures
        strictly_increasing(rows@),
        forall|row: usize| rows@.contains(row) <==> listed(matches@, row),
{
    let mut rows: Vec<usize> = Vec::new();
    let mut i: usize = 0;
    while i < matches.len()
        invariant
            i <= matches@.len(),
            strictly_increasing(rows@),
            forall|row: usize| rows@.contains(row) <==> listed(matches@.take(i as int), row),
        decreases matches@.len() - i,
    {
        let list = &matches[i];
        let mut j: usize = 0;
        while j < list.len()
            invariant
                i < matches@.len(),
                *list == matches@[i as int],
                j <= list@.len(),
                strictly_increasing(rows@),
                forall|row: usize|
                    rows@.contains(row) <==> (listed(matches@.take(i as int), row)
                        || list@.take(j as int).contains(row)),
            decreases list@.len() - j,
        {
            let ghost before = rows@;
            insert_sorted(&mut rows, list[j]);
            assert forall|row: usize|
                rows@.contains(row) <==> (listed(matches@.take(i as int), row) || list@.take(
                    j + 1,
                ).contains(row)) by {
                if list@.take(j + 1).contains(row) && !list@.take(j as int).contains(row) {
                    let k = choose|k: int| 0 <= k < j + 1 && #[trigger] list@.take(j + 1)[k] == row;
                    if k < j {
                        assert(list@.take(j as int)[k] == row);
                    }
                }
                if list@.take(j as int).contains(row) {
                    let k = choose|k: int| 0 <= k < j && #[trigger] list@.take(j as int)[k] == row;
                    assert(list@.take(j + 1)[k] == row);
                }
                if row == list@[j as int] {
                    assert(list@.take(j + 1)[j as int] == row);
                }
            }
            j = j + 1;
        }
        assert forall|row: usize|
            rows@.contains(row) <==> listed(matches@.take(i + 1), row) by {
            assert(list@.take(j as int) =~= list@);
            if listed(matches@.take(i + 1), row) {
                let k = choose|k: int|
                    0 <= k < matches@.take(i + 1).len() && #[trigger] matches@.take(i + 1)[k]@.contains(row);
                if k < i {
                    assert(matches@.take(i as int)[k] == matches@.take(i + 1)[k]);
                }
            }
            if listed(matches@.take(i as int), row) {
                let k = choose|k: int|
                    0 <= k < matches@.take(i as int).len() && #[trigger] matches@.take(i as int)[k]@.contains(row);
                assert(matches@.take(i + 1)[k] == matches@.take(i as int)[k]);
            }
            if list@.contains(row) {
                assert(matches@.take(i + 1)[i as int] == *list);
            }
        }
        i = i + 1;
    }
    assert(matches@.take(i as int) =~= matches@);
    rows
}

/// The rows a layer renders: the given subset, or every row of a table with
/// `row_count` rows when there is none.
pub fn render_rows(row_count: usize, rows: Option<&[usize]>) -> (out: Vec<usize>)
    ensures
        match rows {
            Some(r) => out@ == r@,
            None => out@.len() == row_count && forall|i: int|
                0 <= i < row_count ==> #[trigger] out@[i] == i as usize,
        },
{
    match rows {
        Some(r) => {
            let mut out: Vec<usize> = Vec::new();
            let mut i: usize = 0;
            while i < r.len()
                invariant
                    i <= r@.len(),
                    out@ == r@.take(i as int),
                decreases r@.len() - i,
            {
                out.push(r[i]);
                assert(out@ =~= r@.take(i + 1));
                i = i + 1;
            }
            assert(r@.take(r@.len() as int) =~= r@);
            out
        },
        None => {
            let mut out: Vec<usize> = Vec::new();
            let mut i: usize = 0;
            while i < row_count
                invariant
                    i <= row_count,
                    out@.len() == i,
                    forall|j: int| 0 <= j < i ==> #[trigger] out@[j] == j as usize,
                decreases row_count - i,
            {
                out.push(i);
                i = i + 1;
            }
            out
        },
    }
}

} // verus!
