//! Categorical columns: the domain of distinct categories in order of first
//! appearance, and the count table that groups rows by one or two
//! categorical columns.

use std::collections::BTreeMap;
use vstd::laws_cmp::obeys_cmp;
use vstd::prelude::*;

use crate::text::str_equal;

verus! {

/// The texts of a column of optional category strings (`None` is missing).
pub open spec fn cell_texts(cells: Seq<Option<String>>) -> Seq<Option<Seq<char>>> {
    cells.map_values(|c: Option<String>| opt_text(c))
}

/// The text of an optional string.
pub open spec fn opt_text(c: Option<String>) -> Option<Seq<char>> {
    match c {
        Some(s) => Some(s@),
        None => None,
    }
}

/// The distinct present categories, in order of first appearance.
pub open spec fn first_appearance(cells: Seq<Option<Seq<char>>>) -> Seq<Seq<char>>
    decreases cells.len(),
{
    if cells.len() == 0 {
        Seq::empty()
    } else {
        let d = first_appearance(cells.drop_last());
        match cells.last() {
            Some(c) => if d.contains(c) {
                d
            } else {
                d.push(c)
            },
            None => d,
        }
    }
}

/// The number of rows whose category is `key`.
pub open spec fn key_count(cells: Seq<Option<Seq<char>>>, key: Seq<char>) -> nat
    decreases cells.len(),
{
    if cells.len() == 0 {
        0
    } else {
        key_count(cells.drop_last(), key) + if cells.last() == Some(key) {
            1nat
        } else {
            0nat
        }
    }
}

/// The number of the first `n` rows whose categories are `o` and `i`.
pub open spec fn pair_count(
    outer: Seq<Option<Seq<char>>>,
    inner: Seq<Option<Seq<char>>>,
    o: Seq<char>,
    i: Seq<char>,
    n: int,
) -> nat
    decreases n,
{
    if n <= 0 {
        0
    } else {
        pair_count(outer, inner, o, i, n - 1) + if outer[n - 1] == Some(o) && inner[n - 1] == Some(
            i,
        ) {
            1nat
        } else {
            0nat
        }
    }
}

/// The texts of a sequence of strings.
pub open spec fn string_texts(v: Seq<String>) -> Seq<Seq<char>> {
    v.map_values(|s: String| s@)
}

fn contains_text(seen: &Vec<String>, s: &String) -> (found: bool)
    ensures
        found == string_texts(seen@).contains(s@),
{
    let mut k: usize = 0;
    while k < seen.len()
        invariant
            k <= seen@.len(),
            forall|j: int| 0 <= j < k ==> seen@[j]@ != s@,
        decreases seen@.len() - k,
    {
        if str_equal(seen[k].as_str(), s.as_str()) {
            assert(string_texts(seen@)[k as int] == s@);
            return true;
        }
        k = k + 1;
    }
    proof {
        if string_texts(seen@).contains(s@) {
            let j = choose|j: int| 0 <= j < seen@.len() && string_texts(seen@)[j] == s@;
            assert(seen@[j]@ == s@);
        }
    }
    false
}

/// The first row at or after `i` whose category is `key` (the column's
/// length when there is none).
pub open spec fn first_row_from(cells: Seq<Option<Seq<char>>>, key: Seq<char>, i: int) -> int
    decreases cells.len() - i,
{
    if i < 0 || i >= cells.len() {
        cells.len() as int
    } else if cells[i] == Some(key) {
        i
    } else {
        first_row_from(cells, key, i + 1)
    }
}

/// The first row whose category is `key` (the column's length when there is
/// none).
pub open spec fn first_row_of(cells: Seq<Option<Seq<char>>>, key: Seq<char>) -> int {
    first_row_from(cells, key, 0)
}

proof fn lemma_first_row_from(cells: Seq<Option<Seq<char>>>, key: Seq<char>, i: int, r: int)
    requires
        0 <= i <= r < cells.len(),
        cells[r] == Some(key),
        forall|j: int| i <= j < r ==> cells[j] != Some(key),
    ensures
        first_row_from(cells, key, i) == r,
    decreases r - i,
{
    if i < r {
        lemma_first_row_from(cells, key, i + 1, r);
    }
}

proof fn lemma_key_count_zero(cells: Seq<Option<Seq<char>>>, key: Seq<char>)
    requires
        key_count(cells, key) == 0,
    ensures
        forall|j: int| 0 <= j < cells.len() ==> cells[j] != Some(key),
    decreases cells.len(),
{
    if cells.len() > 0 {
        lemma_key_count_zero(cells.drop_last(), key);
        assert forall|j: int| 0 <= j < cells.len() implies cells[j] != Some(key) by {
            if j < cells.len() - 1 {
                assert(cells.drop_last()[j] == cells[j]);
            }
        }
    }
}

proof fn lemma_key_count_positive(cells: Seq<Option<Seq<char>>>, key: Seq<char>)
    requires
        key_count(cells, key) > 0,
    ensures
        exists|j: int| 0 <= j < cells.len() && cells[j] == Some(key),
    decreases cells.len(),
{
    if cells.last() != Some(key) {
        lemma_key_count_positive(cells.drop_last(), key);
        let j = choose|j: int| 0 <= j < cells.drop_last().len() && cells.drop_last()[j] == Some(key);
        assert(cells[j] == Some(key));
    } else {
        assert(cells[cells.len() - 1] == Some(key));
    }
}

/// Each category of the domain has a first row: it holds the category, and
/// no row before it does. A count table row's key is the cell of that row.
pub proof fn lemma_first_row_of_category(cells: Seq<Option<Seq<char>>>, key: Seq<char>)
    requires
        first_appearance(cells).contains(key),
    ensures
        0 <= first_row_of(cells, key) < cells.len(),
        cells[first_row_of(cells, key)] == Some(key),
        forall|j: int| 0 <= j < first_row_of(cells, key) ==> cells[j] != Some(key),
{
    lemma_domain_is_distinct_and_complete(cells);
    lemma_key_count_positive(cells, key);
    let w = choose|j: int| 0 <= j < cells.len() && cells[j] == Some(key);
    let r = lemma_least_row(cells, key, w);
    lemma_first_row_from(cells, key, 0, r);
}

proof fn lemma_least_row(cells: Seq<Option<Seq<char>>>, key: Seq<char>, w: int) -> (r: int)
    requires
        0 <= w < cells.len(),
        cells[w] == Some(key),
    ensures
        0 <= r <= w,
        cells[r] == Some(key),
        forall|j: int| 0 <= j < r ==> cells[j] != Some(key),
    decreases w,
{
    if exists|j: int| 0 <= j < w && cells[j] == Some(key) {
        let v = choose|j: int| 0 <= j < w && cells[j] == Some(key);
        lemma_least_row(cells, key, v)
    } else {
        w
    }
}

/// The domain of a column with the first row of each category.
fn domain_with_first_rows(cells: &[Option<String>]) -> (result: (Vec<String>, Vec<usize>))
    ensures
        string_texts(result.0@) == first_appearance(cell_texts(cells@)),
        result.1@.len() == result.0@.len(),
        forall|k: int|
            0 <= k < result.1@.len() ==> #[trigger] result.1@[k] == first_row_of(
                cell_texts(cells@),
                result.0@[k]@,
            ),
{
    let ghost all = cell_texts(cells@);
    let mut seen: Vec<String> = Vec::new();
    let mut firsts: Vec<usize> = Vec::new();
    let mut row: usize = 0;
    assert(string_texts(seen@) =~= Seq::<Seq<char>>::empty());
    while row < cells.len()
        invariant
            all == cell_texts(cells@),
            row <= cells@.len(),
            string_texts(seen@) == first_appearance(all.take(row as int)),
            firsts@.len() == seen@.len(),
            forall|k: int|
                0 <= k < firsts@.len() ==> #[trigger] firsts@[k] == first_row_of(all, seen@[k]@),
        decreases cells@.len() - row,
    {
        assert(all.take(row + 1).drop_last() =~= all.take(row as int));
        assert(all.take(row + 1).last() == opt_text(cells@[row as int]));
        if let Some(cat) = &cells[row] {
            if !contains_text(&seen, cat) {
                proof {
                    lemma_domain_is_distinct_and_complete(all.take(row as int));
                    assert(!first_appearance(all.take(row as int)).contains(cat@));
                    lemma_key_count_zero(all.take(row as int), cat@);
                    assert forall|j: int| 0 <= j < row implies all[j] != Some(cat@) by {
                        assert(all.take(row as int)[j] == all[j]);
                    }
                    assert(all[row as int] == Some(cat@));
                    lemma_first_row_from(all, cat@, 0, row as int);
                }
                let ghost before = string_texts(seen@);
                seen.push(cat.clone());
                firsts.push(row);
                assert(string_texts(seen@) =~= before.push(cat@));
            }
        }
        row = row + 1;
    }
    assert(all.take(cells@.len() as int) =~= all);
    (seen, firsts)
}

/// The distinct present categories of a column, in order of first
/// appearance.
pub fn categorical_domain(cells: &[Option<String>]) -> (domain: Vec<String>)
    ensures
        string_texts(domain@) == first_appearance(cell_texts(cells@)),
{
    let (domain, _) = domain_with_first_rows(cells);
    domain
}

/// The count a counter holds for a key (0 when the key is absent).
pub open spec fn tally<K>(m: Map<K, usize>, k: K) -> nat {
    if m.contains_key(k) {
        m[k] as nat
    } else {
        0
    }
}

/// Positions, and pairs of positions, are ordered keys for a counter.
proof fn lemma_position_keys_ordered()
    ensures
        obeys_cmp::<usize>(),
        obeys_cmp::<(usize, usize)>(),
{
    broadcast use vstd::laws_cmp::group_laws_cmp;

}

fn tally_get<K: Ord>(m: &BTreeMap<K, usize>, k: &K) -> (c: usize)
    requires
        obeys_cmp::<K>(),
    ensures
        c == tally(m@, *k),
{
    broadcast use vstd::std_specs::btree::group_btree_axioms;

    match m.get(k) {
        Some(v) => *v,
        None => 0,
    }
}

fn tally_bump<K: Ord + Copy>(m: &mut BTreeMap<K, usize>, k: K)
    requires
        obeys_cmp::<K>(),
        tally(old(m)@, k) < usize::MAX,
    ensures
        tally(final(m)@, k) == tally(old(m)@, k) + 1,
        forall|j: K| j != k ==> tally(final(m)@, j) == tally(old(m)@, j),
{
    broadcast use vstd::std_specs::btree::group_btree_axioms;

    let c = tally_get(m, &k);
    m.insert(k, c + 1);
}

proof fn lemma_key_count_bound(cells: Seq<Option<Seq<char>>>, key: Seq<char>)
    ensures
        key_count(cells, key) <= cells.len(),
    decreases cells.len(),
{
    if cells.len() > 0 {
        lemma_key_count_bound(cells.drop_last(), key);
    }
}

proof fn lemma_pair_count_bound(
    outer: Seq<Option<Seq<char>>>,
    inner: Seq<Option<Seq<char>>>,
    o: Seq<char>,
    i: Seq<char>,
    n: int,
)
    requires
        n >= 0,
    ensures
        pair_count(outer, inner, o, i, n) <= n,
    decreases n,
{
    if n > 0 {
        lemma_pair_count_bound(outer, inner, o, i, n - 1);
    }
}

/// A present category of a column is in the column's domain.
proof fn lemma_present_in_domain(cells: Seq<Option<Seq<char>>>, r: int, key: Seq<char>)
    requires
        0 <= r < cells.len(),
        cells[r] == Some(key),
    ensures
        first_appearance(cells).contains(key),
{
    lemma_domain_is_distinct_and_complete(cells);
    if key_count(cells, key) == 0 {
        lemma_key_count_zero(cells, key);
    }
}

/// The position of a category in a domain that holds it.
fn domain_index(domain: &Vec<String>, cat: &String) -> (k: usize)
    requires
        string_texts(domain@).contains(cat@),
    ensures
        k < domain@.len(),
        domain@[k as int]@ == cat@,
{
    let mut k: usize = 0;
    while k < domain.len()
        invariant
            string_texts(domain@).contains(cat@),
            k <= domain@.len(),
            forall|j: int| 0 <= j < k ==> #[trigger] domain@[j]@ != cat@,
        decreases domain@.len() - k,
    {
        if str_equal(domain[k].as_str(), cat.as_str()) {
            return k;
        }
        k = k + 1;
    }
    proof {
        let j = choose|j: int| 0 <= j < string_texts(domain@).len() && string_texts(domain@)[j] == cat@;
        assert(domain@[j]@ == cat@);
    }
    0
}

/// Count the rows of each category in one pass, keyed by the category's
/// position in the domain.
fn tally_categories(cells: &[Option<String>], domain: &Vec<String>) -> (counts: BTreeMap<
    usize,
    usize,
>)
    requires
        string_texts(domain@) == first_appearance(cell_texts(cells@)),
    ensures
        forall|k: int|
            0 <= k < domain@.len() ==> tally(counts@, k as usize) == key_count(
                cell_texts(cells@),
                #[trigger] domain@[k]@,
            ),
{
    proof {
        lemma_position_keys_ordered();
    }
    let ghost all = cell_texts(cells@);
    let ghost d = string_texts(domain@);
    proof {
        lemma_domain_is_distinct_and_complete(all);
    }
    let dl = domain.len();
    let mut counts: BTreeMap<usize, usize> = BTreeMap::new();
    let mut row: usize = 0;
    while row < cells.len()
        invariant
            all == cell_texts(cells@),
            d == string_texts(domain@),
            d.len() == dl,
            d == first_appearance(all),
            distinct(d),
            row <= cells@.len(),
            forall|k: int|
                0 <= k < d.len() ==> tally(counts@, k as usize) == key_count(
                    all.take(row as int),
                    #[trigger] d[k],
                ),
        decreases cells@.len() - row,
    {
        let ghost before = counts@;
        assert(all.take(row + 1).drop_last() =~= all.take(row as int));
        assert(all.take(row + 1).last() == all[row as int]);
        assert(all[row as int] == opt_text(cells@[row as int]));
        if let Some(cat) = &cells[row] {
            proof {
                lemma_present_in_domain(all, row as int, cat@);
            }
            let k = domain_index(domain, cat);
            proof {
                assert(d[k as int] == cat@);
                lemma_key_count_bound(all.take(row as int), d[k as int]);
            }
            tally_bump(&mut counts, k);
            assert forall|j: int| 0 <= j < d.len() implies tally(counts@, j as usize) == key_count(
                all.take(row + 1),
                #[trigger] d[j],
            ) by {
                if j != k {
                    assert(d[j] != d[k as int]);
                    assert(j as usize != k);
                }
            }
        }
        row = row + 1;
    }
    assert(all.take(cells@.len() as int) =~= all);
    assert forall|k: int| 0 <= k < domain@.len() implies tally(counts@, k as usize) == key_count(
        all,
        #[trigger] domain@[k]@,
    ) by {
        assert(d[k] == domain@[k]@);
    }
    counts
}

/// Count the rows of each pair of an outer and an inner category in one
/// pass, keyed by the categories' positions in their domains.
fn tally_pairs(
    outer: &[Option<String>],
    inner: &[Option<String>],
    outer_domain: &Vec<String>,
    inner_domain: &Vec<String>,
) -> (counts: BTreeMap<(usize, usize), usize>)
    requires
        inner@.len() == outer@.len(),
        string_texts(outer_domain@) == first_appearance(cell_texts(outer@)),
        string_texts(inner_domain@) == first_appearance(cell_texts(inner@)),
    ensures
        forall|a: int, b: int|
            0 <= a < outer_domain@.len() && 0 <= b < inner_domain@.len() ==> tally(
                counts@,
                (a as usize, b as usize),
            ) == pair_count(
                cell_texts(outer@),
                cell_texts(inner@),
                #[trigger] outer_domain@[a]@,
                #[trigger] inner_domain@[b]@,
                outer@.len() as int,
            ),
{
    proof {
        lemma_position_keys_ordered();
    }
    let ghost ot = cell_texts(outer@);
    let ghost it = cell_texts(inner@);
    let ghost d = string_texts(outer_domain@);
    let ghost e = string_texts(inner_domain@);
    proof {
        lemma_domain_is_distinct_and_complete(ot);
        lemma_domain_is_distinct_and_complete(it);
    }
    let dl = outer_domain.len();
    let el = inner_domain.len();
    let mut counts: BTreeMap<(usize, usize), usize> = BTreeMap::new();
    let mut row: usize = 0;
    while row < outer.len()
        invariant
            d.len() == dl,
            e.len() == el,
            ot == cell_texts(outer@),
            it == cell_texts(inner@),
            inner@.len() == outer@.len(),
            d == string_texts(outer_domain@),
            e == string_texts(inner_domain@),
            d == first_appearance(ot),
            e == first_appearance(it),
            distinct(d),
            distinct(e),
            row <= outer@.len(),
            forall|a: int, b: int|
                0 <= a < d.len() && 0 <= b < e.len() ==> tally(counts@, (a as usize, b as usize))
                    == pair_count(ot, it, #[trigger] d[a], #[trigger] e[b], row as int),
        decreases outer@.len() - row,
    {
        assert(ot[row as int] == opt_text(outer@[row as int]));
        assert(it[row as int] == opt_text(inner@[row as int]));
        if let (Some(co), Some(ci)) = (&outer[row], &inner[row]) {
            proof {
                lemma_present_in_domain(ot, row as int, co@);
                lemma_present_in_domain(it, row as int, ci@);
            }
            let a0 = domain_index(outer_domain, co);
            let b0 = domain_index(inner_domain, ci);
            proof {
                assert(d[a0 as int] == co@);
                assert(e[b0 as int] == ci@);
                lemma_pair_count_bound(ot, it, d[a0 as int], e[b0 as int], row as int);
            }
            tally_bump(&mut counts, (a0, b0));
            assert forall|a: int, b: int| 0 <= a < d.len() && 0 <= b < e.len() implies tally(
                counts@,
                (a as usize, b as usize),
            ) == pair_count(ot, it, #[trigger] d[a], #[trigger] e[b], row + 1) by {
                if a != a0 {
                    assert(d[a] != d[a0 as int]);
                }
                if b != b0 {
                    assert(e[b] != e[b0 as int]);
                }
                if a != a0 || b != b0 {
                    assert((a as usize, b as usize) != (a0, b0));
                }
            }
        } else {
            assert forall|a: int, b: int| 0 <= a < d.len() && 0 <= b < e.len() implies tally(
                counts@,
                (a as usize, b as usize),
            ) == pair_count(ot, it, #[trigger] d[a], #[trigger] e[b], row + 1) by {}
        }
        row = row + 1;
    }
    assert forall|a: int, b: int|
        0 <= a < outer_domain@.len() && 0 <= b < inner_domain@.len() implies tally(
        counts@,
        (a as usize, b as usize),
    ) == pair_count(ot, it, #[trigger] outer_domain@[a]@, #[trigger] inner_domain@[b]@, outer@.len() as int) by {
        assert(d[a] == outer_domain@[a]@);
        assert(e[b] == inner_domain@[b]@);
    }
    counts
}

// ---------------------------------------------------------------------------
// Count tables
// ---------------------------------------------------------------------------

/// One row of a count table: the outer category, the inner one when rows are
/// grouped by two columns, the number of rows in the group, and the first
/// row holding each key (so that a table can give the key in the type of
/// its column).
#[derive(Debug, Clone, PartialEq, Eq)]
pub struct CountRow {
    pub key: String,
    pub inner_key: Option<String>,
    pub count: usize,
    /// The first row holding `key`, whose cell is the key in the column's
    /// own type.
    pub first_row: usize,
    /// The first row holding `inner_key`, when rows are grouped by two
    /// columns.
    pub inner_first_row: Option<usize>,
}

/// The category texts and count of a count row.
pub open spec fn row_view(r: CountRow) -> (Seq<char>, Option<Seq<char>>, nat) {
    (r.key@, opt_text(r.inner_key), r.count as nat)
}

/// Whether a count row's first rows are those of its keys: the first row of
/// the outer key in `outer`, and, when grouped by two columns, the first row
/// of the inner key in `inner`.
pub open spec fn first_rows_agree(
    r: CountRow,
    outer: Seq<Option<Seq<char>>>,
    inner: Option<Seq<Option<Seq<char>>>>,
) -> bool {
    &&& r.first_row == first_row_of(outer, r.key@)
    &&& match inner {
        Some(it) => r.inner_first_row matches Some(f) && r.inner_key matches Some(t) && f
            == first_row_of(it, t@),
        None => r.inner_first_row is None,
    }
}

/// The count table of one column: each category of its domain with the
/// number of rows holding it.
pub open spec fn single_rows(outer: Seq<Option<Seq<char>>>) -> Seq<(Seq<char>, Option<Seq<char>>, nat)> {
    let d = first_appearance(outer);
    Seq::new(d.len(), |k: int| (d[k], None, key_count(outer, d[k])))
}

/// The count table of two columns: every pair of an outer and an inner
/// category (outer-major, both in domain order), with the number of rows
/// holding both; pairs that never occur are listed with zero.
pub open spec fn pair_rows(outer: Seq<Option<Seq<char>>>, inner: Seq<Option<Seq<char>>>) -> Seq<
    (Seq<char>, Option<Seq<char>>, nat),
> {
    let d = first_appearance(outer);
    let e = first_appearance(inner);
    Seq::new(
        d.len() * e.len(),
        |k: int|
            (
                d[k / e.len() as int],
                Some(e[k % e.len() as int]),
                pair_count(outer, inner, d[k / e.len() as int], e[k % e.len() as int], outer.len() as int),
            ),
    )
}

/// Count rows grouped by one categorical column, or by two when `inner` is
/// given. Rows missing a group category are not counted. Each row of the
/// table names the first row holding each of its keys, whose cell gives the
/// key in the type of its column; the counts are gathered in one pass over
/// the rows, keyed by each category's position in its domain.
pub fn count_by(outer: &[Option<String>], inner: Option<&[Option<String>]>) -> (rows: Vec<CountRow>)
    requires
        inner matches Some(i) ==> i@.len() == outer@.len(),
    ensures
        rows@.map_values(|r: CountRow| row_view(r)) == match inner {
            Some(i) => pair_rows(cell_texts(outer@), cell_texts(i@)),
            None => single_rows(cell_texts(outer@)),
        },
        forall|k: int|
            0 <= k < rows@.len() ==> first_rows_agree(
                #[trigger] rows@[k],
                cell_texts(outer@),
                match inner {
                    Some(i) => Some(cell_texts(i@)),
                    None => None,
                },
            ),
{
    let ghost ot = cell_texts(outer@);
    let (outer_cats, outer_firsts) = domain_with_first_rows(outer);
    let ghost d = first_appearance(ot);
    let mut rows: Vec<CountRow> = Vec::new();
    match inner {
        None => {
            let counts = tally_categories(outer, &outer_cats);
            let mut a: usize = 0;
            while a < outer_cats.len()
                invariant
                    ot == cell_texts(outer@),
                    d == first_appearance(ot),
                    string_texts(outer_cats@) == d,
                    a <= outer_cats@.len(),
                    rows@.map_values(|r: CountRow| row_view(r)) == single_rows(ot).take(a as int),
                    outer_firsts@.len() == outer_cats@.len(),
                    forall|k: int|
                        0 <= k < outer_firsts@.len() ==> #[trigger] outer_firsts@[k] == first_row_of(
                            ot,
                            outer_cats@[k]@,
                        ),
                    rows@.len() == a,
                    forall|k: int| 0 <= k < rows@.len() ==> first_rows_agree(#[trigger] rows@[k], ot, None),
                    forall|k: int|
                        0 <= k < outer_cats@.len() ==> tally(counts@, k as usize) == key_count(
                            ot,
                            #[trigger] outer_cats@[k]@,
                        ),
                decreases outer_cats@.len() - a,
            {
                let ghost before = rows@.map_values(|r: CountRow| row_view(r));
                assert(d[a as int] == outer_cats@[a as int]@);
                let count = tally_get(&counts, &a);
                let row = CountRow {
                    key: outer_cats[a].clone(),
                    inner_key: None,
                    count,
                    first_row: outer_firsts[a],
                    inner_first_row: None,
                };
                assert(outer_firsts@[a as int] == first_row_of(ot, outer_cats@[a as int]@));
                rows.push(row);
                assert(rows@.map_values(|r: CountRow| row_view(r)) =~= before.push(row_view(row)));
                assert(rows@.map_values(|r: CountRow| row_view(r)) =~= single_rows(ot).take(
                    a + 1,
                ));
                a = a + 1;
            }
            assert(single_rows(ot).take(d.len() as int) =~= single_rows(ot));
        },
        Some(inner) => {
            let ghost it = cell_texts(inner@);
            let (inner_cats, inner_firsts) = domain_with_first_rows(inner);
            let ghost e = first_appearance(it);
            let ghost all = pair_rows(ot, it);
            let counts = tally_pairs(outer, inner, &outer_cats, &inner_cats);
            let m = inner_cats.len();
            let mut a: usize = 0;
            assert(rows@.map_values(|r: CountRow| row_view(r)) =~= all.take(0));
            while a < outer_cats.len()
                invariant
                    ot == cell_texts(outer@),
                    it == cell_texts(inner@),
                    inner@.len() == outer@.len(),
                    d == first_appearance(ot),
                    e == first_appearance(it),
                    all == pair_rows(ot, it),
                    string_texts(outer_cats@) == d,
                    string_texts(inner_cats@) == e,
                    m == e.len(),
                    a <= outer_cats@.len(),
                    rows@.map_values(|r: CountRow| row_view(r)) == all.take(a * m),
                    forall|x: int, y: int|
                        0 <= x < outer_cats@.len() && 0 <= y < inner_cats@.len() ==> tally(
                            counts@,
                            (x as usize, y as usize),
                        ) == pair_count(
                            ot,
                            it,
                            #[trigger] outer_cats@[x]@,
                            #[trigger] inner_cats@[y]@,
                            outer@.len() as int,
                        ),
                    outer_firsts@.len() == outer_cats@.len(),
                    forall|k: int|
                        0 <= k < outer_firsts@.len() ==> #[trigger] outer_firsts@[k] == first_row_of(
                            ot,
                            outer_cats@[k]@,
                        ),
                    inner_firsts@.len() == inner_cats@.len(),
                    forall|k: int|
                        0 <= k < inner_firsts@.len() ==> #[trigger] inner_firsts@[k] == first_row_of(
                            it,
                            inner_cats@[k]@,
                        ),
                    forall|k: int|
                        0 <= k < rows@.len() ==> first_rows_agree(#[trigger] rows@[k], ot, Some(it)),
                decreases outer_cats@.len() - a,
            {
                let mut b: usize = 0;
                proof {
                    assert(a * m + m <= d.len() * m) by (nonlinear_arith)
                        requires
                            a < d.len(),
                    ;
                }
                while b < m
                    invariant
                        ot == cell_texts(outer@),
                        it == cell_texts(inner@),
                        inner@.len() == outer@.len(),
                        d == first_appearance(ot),
                        e == first_appearance(it),
                        all == pair_rows(ot, it),
                        string_texts(outer_cats@) == d,
                        string_texts(inner_cats@) == e,
                        m == e.len(),
                        a < outer_cats@.len(),
                        b <= m,
                        a * m + m <= d.len() * m,
                        rows@.map_values(|r: CountRow| row_view(r)) == all.take(a * m + b),
                        forall|x: int, y: int|
                            0 <= x < outer_cats@.len() && 0 <= y < inner_cats@.len() ==> tally(
                                counts@,
                                (x as usize, y as usize),
                            ) == pair_count(
                                ot,
                                it,
                                #[trigger] outer_cats@[x]@,
                                #[trigger] inner_cats@[y]@,
                                outer@.len() as int,
                            ),
                        outer_firsts@.len() == outer_cats@.len(),
                        forall|k: int|
                            0 <= k < outer_firsts@.len() ==> #[trigger] outer_firsts@[k] == first_row_of(
                                ot,
                                outer_cats@[k]@,
                            ),
                        inner_firsts@.len() == inner_cats@.len(),
                        forall|k: int|
                            0 <= k < inner_firsts@.len() ==> #[trigger] inner_firsts@[k] == first_row_of(
                                it,
                                inner_cats@[k]@,
                            ),
                        forall|k: int|
                            0 <= k < rows@.len() ==> first_rows_agree(#[trigger] rows@[k], ot, Some(it)),
                    decreases m - b,
                {
                    let ghost before = rows@.map_values(|r: CountRow| row_view(r));
                    let ghost k = a * m + b;
                    proof {
                        vstd::arithmetic::div_mod::lemma_fundamental_div_mod_converse(
                            k,
                            m as int,
                            a as int,
                            b as int,
                        );
                    }
                    assert(d[a as int] == outer_cats@[a as int]@);
                    assert(e[b as int] == inner_cats@[b as int]@);
                    let count = tally_get(&counts, &(a, b));
                    assert(count == pair_count(
                        ot,
                        it,
                        outer_cats@[a as int]@,
                        inner_cats@[b as int]@,
                        outer@.len() as int,
                    ));
                    let row = CountRow {
                        key: outer_cats[a].clone(),
                        inner_key: Some(inner_cats[b].clone()),
                        count,
                        first_row: outer_firsts[a],
                        inner_first_row: Some(inner_firsts[b]),
                    };
                    assert(outer_firsts@[a as int] == first_row_of(ot, outer_cats@[a as int]@));
                    assert(inner_firsts@[b as int] == first_row_of(it, inner_cats@[b as int]@));
                    rows.push(row);
                    assert(row_view(row) == all[k]);
                    assert(rows@.map_values(|r: CountRow| row_view(r)) =~= before.push(
                        row_view(row),
                    ));
                    assert(rows@.map_values(|r: CountRow| row_view(r)) =~= all.take(k + 1));
                    b = b + 1;
                }
                a = a + 1;
                assert(a * m == (a - 1) * m + m) by (nonlinear_arith);
            }
            assert(all.take(d.len() * m) =~= all);
        },
    }
    rows
}

// ---------------------------------------------------------------------------
// Laws
// ---------------------------------------------------------------------------

/// The number of rows with a category.
pub open spec fn present_count(cells: Seq<Option<Seq<char>>>) -> nat
    decreases cells.len(),
{
    if cells.len() == 0 {
        0
    } else {
        present_count(cells.drop_last()) + if cells.last() is Some {
            1nat
        } else {
            0nat
        }
    }
}

/// The sum of the counts of a count table.
pub open spec fn counts_total(rows: Seq<(Seq<char>, Option<Seq<char>>, nat)>) -> nat
    decreases rows.len(),
{
    if rows.len() == 0 {
        0
    } else {
        counts_total(rows.drop_last()) + rows.last().2
    }
}

/// The rows holding each category of `d`, summed.
pub open spec fn domain_total(d: Seq<Seq<char>>, cells: Seq<Option<Seq<char>>>) -> nat
    decreases d.len(),
{
    if d.len() == 0 {
        0
    } else {
        domain_total(d.drop_last(), cells) + key_count(cells, d.last())
    }
}

/// Whether no category occurs twice.
pub open spec fn distinct(d: Seq<Seq<char>>) -> bool {
    forall|i: int, j: int| 0 <= i < j < d.len() ==> d[i] != d[j]
}

/// The domain lists each present category once, and only those.
pub proof fn lemma_domain_is_distinct_and_complete(cells: Seq<Option<Seq<char>>>)
    ensures
        distinct(first_appearance(cells)),
        forall|x: Seq<char>| #[trigger]
            first_appearance(cells).contains(x) <==> key_count(cells, x) > 0,
    decreases cells.len(),
{
    if cells.len() > 0 {
        let prefix = cells.drop_last();
        lemma_domain_is_distinct_and_complete(prefix);
        let d = first_appearance(prefix);
        match cells.last() {
            Some(c) => if !d.contains(c) {
                let e = d.push(c);
                assert forall|i: int, j: int| 0 <= i < j < e.len() implies e[i] != e[j] by {
                    if j == d.len() {
                        assert(d.contains(e[i]));
                    } else {
                        assert(e[i] == d[i] && e[j] == d[j]);
                    }
                }
                assert forall|x: Seq<char>| #[trigger] e.contains(x) <==> key_count(cells, x) > 0 by {
                    if e.contains(x) && x != c {
                        let k = choose|k: int| 0 <= k < e.len() && e[k] == x;
                        assert(d.contains(x)) by {
                            assert(d[k] == x);
                        }
                    }
                    if d.contains(x) {
                        let k = choose|k: int| 0 <= k < d.len() && d[k] == x;
                        assert(e[k] == x);
                    }
                    if x == c {
                        assert(e[d.len() as int] == x);
                    }
                }
            },
            None => {},
        }
    }
}

proof fn lemma_domain_total_add_row(d: Seq<Seq<char>>, cells: Seq<Option<Seq<char>>>)
    requires
        cells.len() > 0,
        distinct(d),
    ensures
        domain_total(d, cells) == domain_total(d, cells.drop_last()) + if cells.last() matches Some(x) && d.contains(x) {
            1nat
        } else {
            0nat
        },
    decreases d.len(),
{
    if d.len() > 0 {
        let rest = d.drop_last();
        assert forall|i: int, j: int| 0 <= i < j < rest.len() implies rest[i] != rest[j] by {
            assert(rest[i] == d[i] && rest[j] == d[j]);
        }
        lemma_domain_total_add_row(rest, cells);
        match cells.last() {
            Some(x) => {
                if rest.contains(x) {
                    let k = choose|k: int| 0 <= k < rest.len() && rest[k] == x;
                    assert(d[k] == x);
                    assert(d.last() != x) by {
                        assert(d[d.len() - 1] != d[k]);
                    }
                    assert(d.contains(x));
                } else if d.contains(x) {
                    let k = choose|k: int| 0 <= k < d.len() && d[k] == x;
                    if k < d.len() - 1 {
                        assert(rest[k] == x);
                    }
                    assert(d.last() == x);
                } else {
                    assert(d.last() != x) by {
                        if d.last() == x {
                            assert(d[d.len() - 1] == x);
                        }
                    }
                }
            },
            None => {},
        }
    }
}

proof fn lemma_single_rows_total(d: Seq<Seq<char>>, cells: Seq<Option<Seq<char>>>)
    ensures
        counts_total(Seq::new(d.len(), |k: int| (d[k], None::<Seq<char>>, key_count(cells, d[k]))))
            == domain_total(d, cells),
    decreases d.len(),
{
    if d.len() > 0 {
        let rest = d.drop_last();
        lemma_single_rows_total(rest, cells);
        let full = Seq::new(d.len(), |k: int| (d[k], None::<Seq<char>>, key_count(cells, d[k])));
        let part = Seq::new(
            rest.len(),
            |k: int| (rest[k], None::<Seq<char>>, key_count(cells, rest[k])),
        );
        assert(full.drop_last() =~= part);
    }
}

/// Counting by one column accounts for every row that has a category: the
/// counts of the table add up to the number of such rows.
pub proof fn lemma_counts_cover_present_rows(cells: Seq<Option<Seq<char>>>)
    ensures
        counts_total(single_rows(cells)) == present_count(cells),
{
    let d = first_appearance(cells);
    lemma_single_rows_total(d, cells);
    lemma_domain_total_matches(cells);
}

proof fn lemma_domain_total_matches(cells: Seq<Option<Seq<char>>>)
    ensures
        domain_total(first_appearance(cells), cells) == present_count(cells),
    decreases cells.len(),
{
    if cells.len() > 0 {
        let prefix = cells.drop_last();
        lemma_domain_total_matches(prefix);
        lemma_domain_is_distinct_and_complete(prefix);
        lemma_domain_is_distinct_and_complete(cells);
        let d0 = first_appearance(prefix);
        let d = first_appearance(cells);
        match cells.last() {
            Some(x) => if d0.contains(x) {
                lemma_domain_total_add_row(d0, cells);
            } else {
                lemma_domain_total_add_row(d0, cells);
                assert(d.drop_last() =~= d0);
                assert(key_count(prefix, x) == 0);
                assert(key_count(cells, x) == 1);
            },
            None => {
                lemma_domain_total_add_row(d0, cells);
            },
        }
    }
}

// ---------------------------------------------------------------------------
// Facets and mark budgets
// ---------------------------------------------------------------------------

/// The facet categories of a column: its domain, or one unnamed facet when
/// it has no category.
pub open spec fn facet_categories_of(cells: Seq<Option<Seq<char>>>) -> Seq<Seq<char>> {
    if first_appearance(cells).len() == 0 {
        seq![Seq::<char>::empty()]
    } else {
        first_appearance(cells)
    }
}

/// The categories a facet column splits panels by; there is always at least
/// one panel.
pub fn facet_categories(cells: &[Option<String>]) -> (facets: Vec<String>)
    ensures
        string_texts(facets@) == facet_categories_of(cell_texts(cells@)),
        facets@.len() >= 1,
{
    let domain = categorical_domain(cells);
    if domain.len() == 0 {
        let mut one: Vec<String> = Vec::new();
        one.push(String::new());
        assert(string_texts(one@) =~= seq![Seq::<char>::empty()]);
        one
    } else {
        domain
    }
}

/// The layers one child space draws: its layer or geometry count, at least
/// one.
pub open spec fn space_layers(space: (usize, usize)) -> nat {
    let m = if space.0 > space.1 {
        space.0
    } else {
        space.1
    };
    if m == 0 {
        1
    } else {
        m as nat
    }
}

/// The layers of all child spaces, summed.
pub open spec fn layers_sum(spaces: Seq<(usize, usize)>) -> nat
    decreases spaces.len(),
{
    if spaces.len() == 0 {
        0
    } else {
        layers_sum(spaces.drop_last()) + space_layers(spaces.last())
    }
}

/// The number of matched child rows, summed over all host rows.
pub open spec fn matched_sum(matches: Seq<Vec<usize>>) -> nat
    decreases matches.len(),
{
    if matches.len() == 0 {
        0
    } else {
        matched_sum(matches.drop_last()) + matches.last()@.len()
    }
}

/// The estimated number of child marks: matched rows times the layers of
/// the child spaces (at least one), saturating at `usize::MAX`.
pub open spec fn estimated_marks(spaces: Seq<(usize, usize)>, matches: Seq<Vec<usize>>) -> int {
    let layers = if layers_sum(spaces) == 0 {
        1
    } else {
        layers_sum(spaces)
    };
    let product = matched_sum(matches) * layers;
    if product > usize::MAX {
        usize::MAX as int
    } else {
        product as int
    }
}

/// Whether a glyph or inset would draw more child marks than the budget
/// allows; with no budget it never does. Each child space is given by its
/// layer and geometry counts. Returns the estimate when it is over budget.
pub fn mark_budget_overrun(
    spaces: &[(usize, usize)],
    matches: &[Vec<usize>],
    budget: Option<usize>,
) -> (over: Option<usize>)
    requires
        layers_sum(spaces@) <= usize::MAX,
        matched_sum(matches@) <= usize::MAX,
    ensures
        match budget {
            None => over is None,
            Some(b) => match over {
                Some(e) => e == estimated_marks(spaces@, matches@) && e > b,
                None => estimated_marks(spaces@, matches@) <= b,
            },
        },
{
    let budget = match budget {
        Some(b) => b,
        None => return None,
    };
    let mut layers: usize = 0;
    let mut i: usize = 0;
    while i < spaces.len()
        invariant
            i <= spaces@.len(),
            layers == layers_sum(spaces@.take(i as int)),
            layers_sum(spaces@) <= usize::MAX,
        decreases spaces@.len() - i,
    {
        assert(spaces@.take(i + 1).drop_last() =~= spaces@.take(i as int));
        proof {
            lemma_layers_sum_prefix(spaces@, i as int + 1);
        }
        let (l, g) = spaces[i];
        let m = if l > g {
            l
        } else {
            g
        };
        let m = if m == 0 {
            1
        } else {
            m
        };
        layers = layers + m;
        i = i + 1;
    }
    assert(spaces@.take(spaces@.len() as int) =~= spaces@);
    let layers = if layers == 0 {
        1
    } else {
        layers
    };
    let mut matched: usize = 0;
    let mut j: usize = 0;
    while j < matches.len()
        invariant
            j <= matches@.len(),
            matched == matched_sum(matches@.take(j as int)),
            matched_sum(matches@) <= usize::MAX,
        decreases matches@.len() - j,
    {
        assert(matches@.take(j + 1).drop_last() =~= matches@.take(j as int));
        proof {
            lemma_matched_sum_prefix(matches@, j as int + 1);
        }
        matched = matched + matches[j].len();
        j = j + 1;
    }
    assert(matches@.take(matches@.len() as int) =~= matches@);
    let estimated = match matched.checked_mul(layers) {
        Some(p) => p,
        None => usize::MAX,
    };
    if estimated <= budget {
        None
    } else {
        Some(estimated)
    }
}

proof fn lemma_layers_sum_prefix(spaces: Seq<(usize, usize)>, n: int)
    requires
        0 <= n <= spaces.len(),
    ensures
        layers_sum(spaces.take(n)) <= layers_sum(spaces),
    decreases spaces.len(),
{
    if n < spaces.len() {
        lemma_layers_sum_prefix(spaces.drop_last(), n);
        assert(spaces.drop_last().take(n) =~= spaces.take(n));
    } else {
        assert(spaces.take(n) =~= spaces);
    }
}

proof fn lemma_matched_sum_prefix(matches: Seq<Vec<usize>>, n: int)
    requires
        0 <= n <= matches.len(),
    ensures
        matched_sum(matches.take(n)) <= matched_sum(matches),
    decreases matches.len(),
{
    if n < matches.len() {
        lemma_matched_sum_prefix(matches.drop_last(), n);
        assert(matches.drop_last().take(n) =~= matches.take(n));
    } else {
        assert(matches.take(n) =~= matches);
    }
}

} // verus!
