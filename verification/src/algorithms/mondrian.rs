//! Mondrian multidimensional k-anonymity: recursively cut the rows at the
//! median of the widest quasi-identifier until no allowable cut remains, then
//! generalize each group's quasi-identifiers to a common label.
use vstd::prelude::*;
use crate::data::table::{CellsModel, Column, ColumnData, first_column_from, lemma_first_column, opt_strings_view, Table, TableModel};
use crate::data::dataset::Dataset;
use crate::data::qi::{QIType, QuasiIdentifier, QuasiIdentifiers};
use crate::taxonomy::{lookup_named};
use crate::taxonomy::categorical::{nodes_view, NodeModel};
use vstd::relations::sorted_by;
use crate::algorithms::anonymization_algorithm::{AlgorithmError, AnonymizationAlgorithm, equivalence_class, is_k_anonymous, is_qi_column, same_cell, same_qi_cells};
use crate::taxonomy::categorical::{lca_spec, strs_view};
use crate::text::{lemma_lex_irreflexive, lemma_lex_total, lemma_lex_transitive};
use crate::text::{clone_opt_string, chars_lt, chars_of, int_decimal, lex_lt, push_decimal_i64, string_from_chars, opt_string_view, strings_view};

verus! {

broadcast use vstd::seq_lib::group_seq_properties;

/// Mondrian k-anonymity algorithm.
#[derive(Default)]
pub struct Mondrian {}

/// The integer cell of row `r`, none past the end.
pub open spec fn int_at(v: Seq<Option<i64>>, r: int) -> Option<i64> {
    if 0 <= r < v.len() {
        v[r]
    } else {
        None
    }
}

/// The text cell of row `r`, none past the end.
pub open spec fn str_at(v: Seq<Option<String>>, r: int) -> Option<Seq<char>> {
    if 0 <= r < v.len() {
        opt_string_view(v[r])
    } else {
        None
    }
}

/// The least and greatest non-null value among the rows `rows[..i]`.
pub open spec fn rows_min_max(v: Seq<Option<i64>>, rows: Seq<usize>, i: int) -> Option<(int, int)>
    decreases i,
{
    if i <= 0 {
        None
    } else {
        let rest = rows_min_max(v, rows, i - 1);
        match int_at(v, rows[i - 1] as int) {
            None => rest,
            Some(x) => match rest {
                None => Some((x as int, x as int)),
                Some((lo, hi)) => Some(
                    (if (x as int) < lo { x as int } else { lo }, if (x as int) > hi { x as int } else { hi }),
                ),
            },
        }
    }
}

/// The non-null values of the rows `rows[..i]`, in row order.
pub open spec fn present_ints(v: Seq<Option<i64>>, rows: Seq<usize>, i: int) -> Seq<int>
    decreases i,
{
    if i <= 0 {
        Seq::empty()
    } else {
        let rest = present_ints(v, rows, i - 1);
        match int_at(v, rows[i - 1] as int) {
            None => rest,
            Some(x) => rest.push(x as int),
        }
    }
}

/// The distinct non-null values of the rows `rows[..i]`, in order of first appearance.
pub open spec fn distinct_upto(v: Seq<Option<String>>, rows: Seq<usize>, i: int) -> Seq<Seq<char>>
    decreases i,
{
    if i <= 0 {
        Seq::empty()
    } else {
        let rest = distinct_upto(v, rows, i - 1);
        match str_at(v, rows[i - 1] as int) {
            None => rest,
            Some(s) => if rest.contains(s) {
                rest
            } else {
                rest.push(s)
            },
        }
    }
}

/// Number of values of `d` that come strictly before `s`.
pub open spec fn rank(d: Seq<Seq<char>>, s: Seq<char>) -> int {
    d.filter(|x: Seq<char>| lex_lt(x, s)).len() as int
}

impl Mondrian {
    /// The least and the greatest non-null value among `rows`.
    pub fn numerical_min_max(ca: &Vec<Option<i64>>, rows: &Vec<usize>) -> (r: Option<(i64, i64)>)
        ensures
            match rows_min_max(ca@, rows@, rows@.len() as int) {
                Some((lo, hi)) => r matches Some((a, b)) && a == lo && b == hi,
                None => r is None,
            },
    {
        let mut acc: Option<(i64, i64)> = None;
        for i in 0..rows.len()
            invariant
                match rows_min_max(ca@, rows@, i as int) {
                    Some((lo, hi)) => acc matches Some((a, b)) && a == lo && b == hi,
                    None => acc is None,
                },
        {
            let r = rows[i];
            if r < ca.len() {
                match ca[r] {
                    Some(x) => {
                        acc = match acc {
                            None => Some((x, x)),
                            Some((lo, hi)) => Some(
                                (if x < lo { x } else { lo }, if x > hi { x } else { hi }),
                            ),
                        };
                    },
                    None => {},
                }
            }
        }
        acc
    }
}

/// The non-null values among `rows`, in row order.
fn present_values(ca: &Vec<Option<i64>>, rows: &Vec<usize>) -> (vals: Vec<i64>)
    ensures
        vals@.map_values(|x: i64| x as int) == present_ints(ca@, rows@, rows@.len() as int),
{
    let mut vals: Vec<i64> = Vec::new();
    for i in 0..rows.len()
        invariant
            vals@.map_values(|x: i64| x as int) == present_ints(ca@, rows@, i as int),
    {
        let r = rows[i];
        if r < ca.len() {
            match ca[r] {
                Some(x) => {
                    let ghost before = vals@;
                    vals.push(x);
                    assert(vals@.map_values(|x: i64| x as int) =~= before.map_values(|x: i64| x as int).push(
                        x as int,
                    ));
                },
                None => {},
            }
        }
    }
    vals
}

/// The distinct non-null values among `rows`, in order of first appearance.
fn distinct_values(ca: &Vec<Option<String>>, rows: &Vec<usize>) -> (d: Vec<String>)
    ensures
        strings_view(d@) == distinct_upto(ca@, rows@, rows@.len() as int),
{
    let mut d: Vec<String> = Vec::new();
    for i in 0..rows.len()
        invariant
            strings_view(d@) == distinct_upto(ca@, rows@, i as int),
    {
        let r = rows[i];
        if r < ca.len() {
            match &ca[r] {
                Some(s) => {
                    let ghost dv = strings_view(d@);
                    let mut found = false;
                    let mut j: usize = 0;
                    while j < d.len()
                        invariant
                            0 <= j <= d@.len(),
                            dv == strings_view(d@),
                            found == exists|q: int| 0 <= q < j && dv[q] == s@,
                        decreases d@.len() - j,
                    {
                        assert(dv[j as int] == d[j as int]@);
                        if d[j] == *s {
                            found = true;
                        }
                        assert(found == exists|q: int| 0 <= q < j + 1 && dv[q] == s@) by {
                            if found && !(exists|q: int| 0 <= q < j && dv[q] == s@) {
                                assert(dv[j as int] == s@);
                            }
                        }
                        j += 1;
                    }
                    assert(found == dv.contains(s@));
                    if !found {
                        d.push(s.clone());
                        assert(strings_view(d@) =~= dv.push(s@));
                    }
                },
                None => {},
            }
        }
    }
    d
}


/// Sorts integers in ascending order (std's `slice::sort_unstable`): the
/// result holds the same values, each as often, in ascending order.
#[verifier::external_body]
fn sort_ints(v: &mut Vec<i64>)
    ensures
        final(v)@.len() == old(v)@.len(),
        final(v)@.map_values(|x: i64| x as int).to_multiset() == old(v)@.map_values(
            |x: i64| x as int,
        ).to_multiset(),
        sorted_by(final(v)@.map_values(|x: i64| x as int), |x: int, y: int| x <= y),
{
    v.sort_unstable();
}

/// Whether row `r` holds a value at most `m`.
pub open spec fn at_most(v: Seq<Option<i64>>, r: usize, m: int) -> bool {
    match int_at(v, r as int) {
        Some(x) => x <= m,
        None => false,
    }
}

/// Whether row `r` holds a value above `m`.
pub open spec fn above(v: Seq<Option<i64>>, r: usize, m: int) -> bool {
    match int_at(v, r as int) {
        Some(x) => x > m,
        None => false,
    }
}

/// The median cut of an integer column: rows whose value is at most the
/// lower median go left, rows whose value is above it go right, rows without
/// a value go nowhere; no cut when a side would be empty.
pub open spec fn num_split_spec(v: Seq<Option<i64>>, rows: Seq<usize>) -> Option<(Seq<usize>, Seq<usize>)> {
    let vals = present_ints(v, rows, rows.len() as int);
    if vals.len() == 0 {
        None
    } else {
        let m = vals.sort()[(vals.len() - 1) / 2];
        let left = rows.filter(|r: usize| at_most(v, r, m));
        let right = rows.filter(|r: usize| above(v, r, m));
        if left.len() == 0 || right.len() == 0 {
            None
        } else {
            Some((left, right))
        }
    }
}

/// Whether row `r` holds a value in the lower half of the sorted distinct values `d`.
pub open spec fn in_lower(v: Seq<Option<String>>, d: Seq<Seq<char>>, r: usize) -> bool {
    match str_at(v, r as int) {
        Some(s) => rank(d, s) < d.len() / 2,
        None => false,
    }
}

/// Whether row `r` holds a value in the upper half of the sorted distinct values `d`.
pub open spec fn in_upper(v: Seq<Option<String>>, d: Seq<Seq<char>>, r: usize) -> bool {
    match str_at(v, r as int) {
        Some(s) => rank(d, s) >= d.len() / 2,
        None => false,
    }
}

/// The cut of a text column: the distinct values, sorted, split in two halves
/// (the upper one taking the middle); rows go to the side of their value, rows
/// without a value go nowhere; no cut with fewer than two distinct values or
/// when a side would be empty.
pub open spec fn cat_split_spec(v: Seq<Option<String>>, rows: Seq<usize>) -> Option<(Seq<usize>, Seq<usize>)> {
    let d = distinct_upto(v, rows, rows.len() as int);
    if d.len() < 2 {
        None
    } else {
        let left = rows.filter(|r: usize| in_lower(v, d, r));
        let right = rows.filter(|r: usize| in_upper(v, d, r));
        if left.len() == 0 || right.len() == 0 {
            None
        } else {
            Some((left, right))
        }
    }
}

/// The cut of `rows` on quasi-identifier `qi`: none when its column is missing
/// or holds the wrong kind of cells.
pub open spec fn split_spec(ds: Dataset, qi: QuasiIdentifier, rows: Seq<usize>) -> Option<(Seq<usize>, Seq<usize>)> {
    match first_column_from(ds.df.columns@, qi.column_name@, 0) {
        None => None,
        Some(c) => match (qi.qi_type, ds.df.columns@[c].data) {
            (QIType::Numerical { .. }, ColumnData::Int(v)) => num_split_spec(v@, rows),
            (QIType::Categorical { .. }, ColumnData::Str(v)) => cat_split_spec(v@, rows),
            _ => None,
        },
    }
}

/// Every non-null value among `rows[..i]` is in `distinct_upto(.., i)`.
pub proof fn lemma_distinct_covers(v: Seq<Option<String>>, rows: Seq<usize>, i: int)
    requires
        0 <= i <= rows.len(),
    ensures
        forall|j: int|
            0 <= j < i && (#[trigger] str_at(v, rows[j] as int)) is Some ==> distinct_upto(v, rows, i).contains(
                str_at(v, rows[j] as int)->0,
            ),
        forall|a: int, b: int|
            0 <= a < b < distinct_upto(v, rows, i).len() ==> distinct_upto(v, rows, i)[a] != distinct_upto(
                v,
                rows,
                i,
            )[b],
    decreases i,
{
    if i > 0 {
        lemma_distinct_covers(v, rows, i - 1);
        let rest = distinct_upto(v, rows, i - 1);
        let cur = distinct_upto(v, rows, i);
        assert forall|j: int|
            0 <= j < i && (#[trigger] str_at(v, rows[j] as int)) is Some implies cur.contains(
                str_at(v, rows[j] as int)->0,
            ) by {
            if j < i - 1 {
                let s = str_at(v, rows[j] as int)->0;
                assert(rest.contains(s));
                let q = choose|q: int| 0 <= q < rest.len() && rest[q] == s;
                assert(cur[q] == s);
            } else {
                let s = str_at(v, rows[j] as int)->0;
                if rest.contains(s) {
                    let q = choose|q: int| 0 <= q < rest.len() && rest[q] == s;
                    assert(cur[q] == s);
                } else {
                    assert(cur[rest.len() as int] == s);
                }
            }
        }
    }
}

/// The rows of `rows` for which `keep` holds at each position, as marked.
fn select_rows(rows: &Vec<usize>, marks: &Vec<bool>, Ghost(p): Ghost<spec_fn(usize) -> bool>) -> (out: Vec<usize>)
    requires
        marks@.len() == rows@.len(),
        forall|i: int| 0 <= i < rows@.len() ==> #[trigger] marks@[i] == p(rows@[i]),
    ensures
        out@ == rows@.filter(p),
{
    let mut out: Vec<usize> = Vec::new();
    for i in 0..rows.len()
        invariant
            marks@.len() == rows@.len(),
            forall|q: int| 0 <= q < rows@.len() ==> #[trigger] marks@[q] == p(rows@[q]),
            out@ == rows@.take(i as int).filter(p),
    {
        proof {
            rows@.take(i as int).lemma_filter_push(rows@[i as int], p);
            assert(rows@.take(i as int + 1) =~= rows@.take(i as int).push(rows@[i as int]));
        }
        if marks[i] {
            out.push(rows[i]);
        }
    }
    assert(rows@.take(rows@.len() as int) =~= rows@);
    out
}

/// The median cut of an integer column (see `num_split_spec`).
fn split_numerical(ca: &Vec<Option<i64>>, rows: &Vec<usize>) -> (r: Option<(Vec<usize>, Vec<usize>)>)
    ensures
        match num_split_spec(ca@, rows@) {
            Some((l, h)) => r matches Some((a, b)) && a@ == l && b@ == h,
            None => r is None,
        },
{
    let mut vals = present_values(ca, rows);
    if vals.len() == 0 {
        return None;
    }
    let ghost pv = present_ints(ca@, rows@, rows@.len() as int);
    sort_ints(&mut vals);
    let median = vals[(vals.len() - 1) / 2];
    proof {
        let sv = vals@.map_values(|x: i64| x as int);
        pv.lemma_sort_ensures();
        vstd::seq_lib::lemma_sorted_unique(sv, pv.sort(), |x: int, y: int| x <= y);
        assert(sv[(sv.len() - 1) / 2] == median as int);
    }
    let ghost m = median as int;
    let mut low_marks: Vec<bool> = Vec::new();
    let mut high_marks: Vec<bool> = Vec::new();
    for i in 0..rows.len()
        invariant
            low_marks@.len() == i,
            high_marks@.len() == i,
            m == median as int,
            forall|q: int| 0 <= q < i ==> #[trigger] low_marks@[q] == at_most(ca@, rows@[q], m),
            forall|q: int| 0 <= q < i ==> #[trigger] high_marks@[q] == above(ca@, rows@[q], m),
    {
        let r = rows[i];
        let (lo, hi) = if r < ca.len() {
            match ca[r] {
                Some(x) => (x <= median, x > median),
                None => (false, false),
            }
        } else {
            (false, false)
        };
        low_marks.push(lo);
        high_marks.push(hi);
    }
    let left = select_rows(rows, &low_marks, Ghost(|r: usize| at_most(ca@, r, m)));
    let right = select_rows(rows, &high_marks, Ghost(|r: usize| above(ca@, r, m)));
    assert(m == pv.sort()[(pv.len() - 1) / 2]);
    if left.len() == 0 || right.len() == 0 {
        None
    } else {
        Some((left, right))
    }
}

/// The cut of a text column (see `cat_split_spec`).
fn split_categorical(ca: &Vec<Option<String>>, rows: &Vec<usize>) -> (r: Option<(Vec<usize>, Vec<usize>)>)
    ensures
        match cat_split_spec(ca@, rows@) {
            Some((l, h)) => r matches Some((a, b)) && a@ == l && b@ == h,
            None => r is None,
        },
{
    let distinct = distinct_values(ca, rows);
    let ghost d = strings_view(distinct@);
    let nd = distinct.len();
    if nd < 2 {
        return None;
    }
    proof {
        lemma_distinct_covers(ca@, rows@, rows@.len() as int);
    }
    let mut dchars: Vec<Vec<char>> = Vec::new();
    for j in 0..nd
        invariant
            nd == distinct@.len(),
            dchars@.len() == j,
            forall|q: int| 0 <= q < j ==> #[trigger] dchars@[q]@ == distinct@[q]@,
    {
        dchars.push(chars_of(distinct[j].as_str()));
    }
    let mut ranks: Vec<usize> = Vec::new();
    for j in 0..nd
        invariant
            nd == distinct@.len(),
            nd == dchars@.len(),
            d == strings_view(distinct@),
            forall|q: int| 0 <= q < nd ==> #[trigger] dchars@[q]@ == d[q],
            ranks@.len() == j,
            forall|q: int| 0 <= q < j ==> #[trigger] ranks@[q] == rank(d, d[q]),
    {
        let ghost p = |x: Seq<char>| lex_lt(x, d[j as int]);
        let mut count: usize = 0;
        for q in 0..nd
            invariant
                nd == dchars@.len(),
                nd == d.len(),
                forall|q2: int| 0 <= q2 < nd ==> #[trigger] dchars@[q2]@ == d[q2],
                p == (|x: Seq<char>| lex_lt(x, d[j as int])),
                j < nd,
                count == d.take(q as int).filter(p).len(),
                count <= q,
        {
            proof {
                d.take(q as int).lemma_filter_push(d[q as int], p);
                assert(d.take(q as int + 1) =~= d.take(q as int).push(d[q as int]));
            }
            if chars_lt(&dchars[q], &dchars[j]) {
                count += 1;
            }
        }
        assert(d.take(nd as int) =~= d);
        ranks.push(count);
    }
    let mid = nd / 2;
    let mut low_marks: Vec<bool> = Vec::new();
    let mut high_marks: Vec<bool> = Vec::new();
    for i in 0..rows.len()
        invariant
            nd == distinct@.len(),
            d == strings_view(distinct@),
            d == distinct_upto(ca@, rows@, rows@.len() as int),
            ranks@.len() == nd,
            forall|q: int| 0 <= q < nd ==> #[trigger] ranks@[q] == rank(d, d[q]),
            mid == nd / 2,
            forall|j: int|
                0 <= j < rows@.len() && (#[trigger] str_at(ca@, rows@[j] as int)) is Some ==> d.contains(
                    str_at(ca@, rows@[j] as int)->0,
                ),
            low_marks@.len() == i,
            high_marks@.len() == i,
            forall|q: int| 0 <= q < i ==> #[trigger] low_marks@[q] == in_lower(ca@, d, rows@[q]),
            forall|q: int| 0 <= q < i ==> #[trigger] high_marks@[q] == in_upper(ca@, d, rows@[q]),
    {
        let r = rows[i];
        let mut lo = false;
        let mut hi = false;
        if r < ca.len() {
            match &ca[r] {
                Some(s) => {
                    assert(str_at(ca@, rows@[i as int] as int) == Some(s@));
                    let mut j: usize = 0;
                    while j < nd && !(distinct[j] == *s)
                        invariant
                            nd == distinct@.len(),
                            d == strings_view(distinct@),
                            0 <= j <= nd,
                            d.contains(s@),
                            forall|q: int| 0 <= q < j ==> d[q] != s@,
                        decreases nd - j,
                    {
                        assert(d[j as int] == distinct[j as int]@);
                        j += 1;
                    }
                    if j == nd {
                        assert(false);
                    } else {
                        assert(d[j as int] == distinct[j as int]@);
                        assert(d[j as int] == s@);
                        if ranks[j] >= mid {
                            hi = true;
                        } else {
                            lo = true;
                        }
                    }
                },
                None => {},
            }
        }
        low_marks.push(lo);
        high_marks.push(hi);
    }
    let left = select_rows(rows, &low_marks, Ghost(|r: usize| in_lower(ca@, d, r)));
    let right = select_rows(rows, &high_marks, Ghost(|r: usize| in_upper(ca@, d, r)));
    if left.len() == 0 || right.len() == 0 {
        None
    } else {
        Some((left, right))
    }
}

impl Mondrian {
    /// Cuts `rows` on quasi-identifier `qi` (see `split_spec`).
    pub fn split_on_dim(dataset: &Dataset, qi: &QuasiIdentifier, rows: &Vec<usize>) -> (r: Option<(Vec<usize>, Vec<usize>)>)
        ensures
            match split_spec(*dataset, *qi, rows@) {
                Some((l, h)) => r matches Some((a, b)) && a@ == l && b@ == h,
                None => r is None,
            },
    {
        let c = dataset.df.column_index(qi.column_name.as_str());
        proof {
            lemma_first_column(dataset.df.columns@, qi.column_name@, 0);
        }
        match c {
            None => None,
            Some(ci) => {
                assert(dataset.df.columns@[ci as int].data == dataset.df.columns[ci as int].data);
                match (&qi.qi_type, &dataset.df.columns[ci].data) {
                    (QIType::Numerical { .. }, ColumnData::Int(v)) => split_numerical(v, rows),
                    (QIType::Categorical { .. }, ColumnData::Str(v)) => split_categorical(v, rows),
                    _ => None,
                }
            },
        }
    }
}


/// Number of nodes among `ns[..i]` at level 0.
pub open spec fn count_level0(ns: Seq<NodeModel>, i: int) -> int
    decreases i,
{
    if i <= 0 {
        0
    } else {
        count_level0(ns, i - 1) + if ns[i - 1].level == 0 {
            1int
        } else {
            0
        }
    }
}

/// How widely the values of `rows` spread on quasi-identifier `qi`, as a
/// fraction `(numerator, denominator)` with a positive denominator: for a
/// numerical one, the width of the rows' values over the width of its
/// taxonomy's range; for a categorical one, the number of distinct values
/// over the number of level-0 nodes of its taxonomy; 0 when it cannot be told
/// (no taxonomy, an empty range, no such column, wrong kind of cells, no values).
pub open spec fn span_spec(ds: Dataset, qi: QuasiIdentifier, rows: Seq<usize>) -> (int, int) {
    let name = qi.column_name@;
    let col = first_column_from(ds.df.columns@, name, 0);
    match qi.qi_type {
        QIType::Numerical { .. } => match lookup_named(ds.taxonomies@.numerical, name) {
            None => (0, 1),
            Some(t) => {
                let g = t.max_val - t.min_val;
                if g == 0 {
                    (0, 1)
                } else {
                    match col {
                        None => (0, 1),
                        Some(c) => match ds.df.columns@[c].data {
                            ColumnData::Int(v) => match rows_min_max(v@, rows, rows.len() as int) {
                                Some((lo, hi)) => if g > 0 {
                                    (hi - lo, g)
                                } else {
                                    (lo - hi, -g)
                                },
                                None => (0, 1),
                            },
                            ColumnData::Str(_) => (0, 1),
                        },
                    }
                }
            },
        },
        QIType::Categorical { .. } => match lookup_named(ds.taxonomies@.categorical, name) {
            None => (0, 1),
            Some(t) => {
                let total = count_level0(t.nodes, t.nodes.len() as int);
                if total == 0 {
                    (0, 1)
                } else {
                    match col {
                        None => (0, 1),
                        Some(c) => match ds.df.columns@[c].data {
                            ColumnData::Str(v) => (distinct_upto(v@, rows, rows.len() as int).len() as int, total),
                            ColumnData::Int(_) => (0, 1),
                        },
                    }
                }
            },
        },
    }
}

/// Whether the fraction `a` is greater than the fraction `b` (positive denominators).
pub open spec fn span_gt(a: (int, int), b: (int, int)) -> bool {
    a.0 * b.1 > b.0 * a.1
}

/// Whether `x / y > z / w`, for `|x|, |z| < 2^64` and `0 < y, w < 2^64`.
fn frac_gt(x: i128, y: u128, z: i128, w: u128) -> (r: bool)
    requires
        -0x1_0000_0000_0000_0000 < x < 0x1_0000_0000_0000_0000,
        -0x1_0000_0000_0000_0000 < z < 0x1_0000_0000_0000_0000,
        0 < y < 0x1_0000_0000_0000_0000,
        0 < w < 0x1_0000_0000_0000_0000,
    ensures
        r == (x * w > z * y),
{
    if x >= 0 && z < 0 {
        assert(x * w >= 0) by (nonlinear_arith)
            requires
                x >= 0,
                w > 0,
        ;
        assert(z * y < 0) by (nonlinear_arith)
            requires
                z < 0,
                y > 0,
        ;
        return true;
    }
    if x < 0 && z >= 0 {
        assert(x * w < 0) by (nonlinear_arith)
            requires
                x < 0,
                w > 0,
        ;
        assert(z * y >= 0) by (nonlinear_arith)
            requires
                z >= 0,
                y > 0,
        ;
        return false;
    }
    if x >= 0 {
        let a: u128 = x as u128;
        let c: u128 = z as u128;
        assert(a * w < 0x1_0000_0000_0000_0000 * 0x1_0000_0000_0000_0000) by (nonlinear_arith)
            requires
                0 <= a < 0x1_0000_0000_0000_0000,
                0 < w < 0x1_0000_0000_0000_0000,
        ;
        assert(c * y < 0x1_0000_0000_0000_0000 * 0x1_0000_0000_0000_0000) by (nonlinear_arith)
            requires
                0 <= c < 0x1_0000_0000_0000_0000,
                0 < y < 0x1_0000_0000_0000_0000,
        ;
        a * w > c * y
    } else {
        let a: u128 = (-x) as u128;
        let c: u128 = (-z) as u128;
        assert(a * w < 0x1_0000_0000_0000_0000 * 0x1_0000_0000_0000_0000) by (nonlinear_arith)
            requires
                0 <= a < 0x1_0000_0000_0000_0000,
                0 < w < 0x1_0000_0000_0000_0000,
        ;
        assert(c * y < 0x1_0000_0000_0000_0000 * 0x1_0000_0000_0000_0000) by (nonlinear_arith)
            requires
                0 <= c < 0x1_0000_0000_0000_0000,
                0 < y < 0x1_0000_0000_0000_0000,
        ;
        assert((-x) * w == -(x * w)) by (nonlinear_arith);
        assert((-z) * y == -(z * y)) by (nonlinear_arith);
        c * y > a * w
    }
}

impl Mondrian {
    /// The spread of `rows` on quasi-identifier `qi` (see `span_spec`), as a
    /// numerator and a positive denominator, each of magnitude below 2^64.
    pub fn normalized_span(dataset: &Dataset, qi: &QuasiIdentifier, rows: &Vec<usize>) -> (r: (i128, u128))
        ensures
            (r.0 as int, r.1 as int) == span_spec(*dataset, *qi, rows@),
            -0x1_0000_0000_0000_0000 < r.0 < 0x1_0000_0000_0000_0000,
            0 < r.1 < 0x1_0000_0000_0000_0000,
    {
        let ghost name = qi.column_name@;
        let c = dataset.df.column_index(qi.column_name.as_str());
        proof {
            lemma_first_column(dataset.df.columns@, name, 0);
        }
        match &qi.qi_type {
            QIType::Numerical { .. } => {
                match dataset.taxonomies.numerical(qi.column_name.as_str()) {
                    None => (0, 1),
                    Some(t) => {
                        let g: i128 = t.max_val as i128 - t.min_val as i128;
                        if g == 0 {
                            return (0, 1);
                        }
                        match c {
                            None => (0, 1),
                            Some(ci) => {
                                assert(dataset.df.columns@[ci as int].data == dataset.df.columns[ci as int].data);
                                match &dataset.df.columns[ci].data {
                                    ColumnData::Int(v) => {
                                        match Self::numerical_min_max(v, rows) {
                                            Some((lo, hi)) => {
                                                proof {
                                                    lemma_rows_min_max_order(v@, rows@, rows@.len() as int);
                                                }
                                                if g > 0 {
                                                    (hi as i128 - lo as i128, g as u128)
                                                } else {
                                                    (lo as i128 - hi as i128, (-g) as u128)
                                                }
                                            },
                                            None => (0, 1),
                                        }
                                    },
                                    ColumnData::Str(_) => (0, 1),
                                }
                            },
                        }
                    },
                }
            },
            QIType::Categorical { .. } => {
                match dataset.taxonomies.categorical(qi.column_name.as_str()) {
                    None => (0, 1),
                    Some(t) => {
                        let ghost ns = nodes_view(t.nodes@);
                        let mut total: usize = 0;
                        for i in 0..t.nodes.len()
                            invariant
                                ns == nodes_view(t.nodes@),
                                total == count_level0(ns, i as int),
                                total <= i,
                        {
                            assert(ns[i as int].level == t.nodes[i as int].level);
                            if t.nodes[i].level == 0 {
                                total += 1;
                            }
                        }
                        if total == 0 {
                            return (0, 1);
                        }
                        match c {
                            None => (0, 1),
                            Some(ci) => {
                                assert(dataset.df.columns@[ci as int].data == dataset.df.columns[ci as int].data);
                                match &dataset.df.columns[ci].data {
                                    ColumnData::Str(v) => {
                                        let d = distinct_values(v, rows);
                                        proof {
                                            lemma_distinct_len(v@, rows@, rows@.len() as int);
                                        }
                                        (d.len() as i128, total as u128)
                                    },
                                    ColumnData::Int(_) => (0, 1),
                                }
                            },
                        }
                    },
                }
            },
        }
    }
}

/// The range found is ordered.
pub proof fn lemma_rows_min_max_order(v: Seq<Option<i64>>, rows: Seq<usize>, i: int)
    ensures
        rows_min_max(v, rows, i) matches Some((lo, hi)) ==> i64::MIN <= lo <= hi <= i64::MAX,
    decreases i,
{
    if i > 0 {
        lemma_rows_min_max_order(v, rows, i - 1);
    }
}

/// There are no more distinct values than rows.
pub proof fn lemma_distinct_len(v: Seq<Option<String>>, rows: Seq<usize>, i: int)
    ensures
        distinct_upto(v, rows, i).len() <= if i > 0 { i } else { 0 },
    decreases i,
{
    if i > 0 {
        lemma_distinct_len(v, rows, i - 1);
    }
}


/// Whether cutting `rows` on the `d`-th quasi-identifier leaves at least `k` rows on each side.
pub open spec fn allowable(ds: Dataset, k: int, rows: Seq<usize>, d: int) -> bool {
    match split_spec(ds, ds.qis.0@[d], rows) {
        Some((l, h)) => l.len() >= k && h.len() >= k,
        None => false,
    }
}

/// Among the first `i` quasi-identifiers, the allowable one of greatest spread,
/// the earliest on a tie.
pub open spec fn best_dim_upto(ds: Dataset, k: int, rows: Seq<usize>, i: int) -> Option<int>
    decreases i,
{
    if i <= 0 {
        None
    } else {
        let b = best_dim_upto(ds, k, rows, i - 1);
        if !allowable(ds, k, rows, i - 1) {
            b
        } else {
            match b {
                None => Some(i - 1),
                Some(d) => if span_gt(
                    span_spec(ds, ds.qis.0@[i - 1], rows),
                    span_spec(ds, ds.qis.0@[d], rows),
                ) {
                    Some(i - 1)
                } else {
                    Some(d)
                },
            }
        }
    }
}

/// The cut Mondrian makes on `rows`: on the allowable quasi-identifier of
/// greatest spread (the earliest on a tie), none if no cut is allowable.
pub open spec fn try_split_spec(ds: Dataset, k: int, rows: Seq<usize>) -> Option<(Seq<usize>, Seq<usize>)> {
    match best_dim_upto(ds, k, rows, ds.qis.0@.len() as int) {
        Some(d) => split_spec(ds, ds.qis.0@[d], rows),
        None => None,
    }
}

pub proof fn lemma_best_dim(ds: Dataset, k: int, rows: Seq<usize>, i: int)
    requires
        0 <= i,
    ensures
        best_dim_upto(ds, k, rows, i) matches Some(d) ==> 0 <= d < i && allowable(ds, k, rows, d),
    decreases i,
{
    if i > 0 {
        lemma_best_dim(ds, k, rows, i - 1);
    }
}

/// Filters by two predicates that never hold together take no more than all items.
pub proof fn lemma_filter_disjoint<A>(s: Seq<A>, p: spec_fn(A) -> bool, q: spec_fn(A) -> bool)
    requires
        forall|x: A| !(#[trigger] p(x) && q(x)),
    ensures
        s.filter(p).len() + s.filter(q).len() <= s.len(),
    decreases s.len(),
{
    reveal(Seq::filter);
    if s.len() > 0 {
        lemma_filter_disjoint(s.drop_last(), p, q);
    }
}

/// A cut splits some of the rows into two non-empty sides.
pub proof fn lemma_split_sizes(ds: Dataset, qi: QuasiIdentifier, rows: Seq<usize>)
    ensures
        split_spec(ds, qi, rows) matches Some((l, h)) ==> l.len() >= 1 && h.len() >= 1 && l.len() + h.len()
            <= rows.len(),
{
    match first_column_from(ds.df.columns@, qi.column_name@, 0) {
        None => {},
        Some(c) => match (qi.qi_type, ds.df.columns@[c].data) {
            (QIType::Numerical { .. }, ColumnData::Int(v)) => {
                let vals = present_ints(v@, rows, rows.len() as int);
                if vals.len() > 0 {
                    let m = vals.sort()[(vals.len() - 1) / 2];
                    lemma_filter_disjoint(rows, |r: usize| at_most(v@, r, m), |r: usize| above(v@, r, m));
                }
            },
            (QIType::Categorical { .. }, ColumnData::Str(v)) => {
                let d = distinct_upto(v@, rows, rows.len() as int);
                lemma_filter_disjoint(rows, |r: usize| in_lower(v@, d, r), |r: usize| in_upper(v@, d, r));
            },
            _ => {},
        },
    }
}

/// Whether the fraction `a` is at least the fraction `b` (positive denominators).
pub open spec fn span_ge(a: (int, int), b: (int, int)) -> bool {
    a.0 * b.1 >= b.0 * a.1
}

/// Number of level-0 nodes is never negative.
pub proof fn lemma_count_level0_nonneg(ns: Seq<NodeModel>, i: int)
    ensures
        count_level0(ns, i) >= 0,
    decreases i,
{
    if i > 0 {
        lemma_count_level0_nonneg(ns, i - 1);
    }
}

/// A span's denominator is positive.
pub proof fn lemma_span_den_pos(ds: Dataset, qi: QuasiIdentifier, rows: Seq<usize>)
    ensures
        span_spec(ds, qi, rows).1 > 0,
{
    match qi.qi_type {
        QIType::Categorical { .. } => match lookup_named(ds.taxonomies@.categorical, qi.column_name@) {
            Some(t) => lemma_count_level0_nonneg(t.nodes, t.nodes.len() as int),
            None => {},
        },
        _ => {},
    }
}

/// `a <= b < c` for fractions with positive denominators gives `a < c`.
pub proof fn lemma_span_trans(a: (int, int), b: (int, int), c: (int, int))
    requires
        a.1 > 0,
        b.1 > 0,
        c.1 > 0,
        span_ge(b, a),
        span_gt(c, b),
    ensures
        span_gt(c, a),
{
    assert(b.0 * a.1 * c.1 >= a.0 * b.1 * c.1) by (nonlinear_arith)
        requires
            b.0 * a.1 >= a.0 * b.1,
            c.1 > 0,
    ;
    assert(c.0 * b.1 * a.1 > b.0 * c.1 * a.1) by (nonlinear_arith)
        requires
            c.0 * b.1 > b.0 * c.1,
            a.1 > 0,
    ;
    assert(b.0 * a.1 * c.1 == b.0 * c.1 * a.1) by (nonlinear_arith);
    assert(a.0 * b.1 * c.1 == a.0 * c.1 * b.1) by (nonlinear_arith);
    assert(c.0 * b.1 * a.1 == c.0 * a.1 * b.1) by (nonlinear_arith);
    assert(c.0 * a.1 > a.0 * c.1) by (nonlinear_arith)
        requires
            c.0 * a.1 * b.1 > a.0 * c.1 * b.1,
            b.1 > 0,
    ;
}

/// Among the first `i` quasi-identifiers, the one `best_dim_upto` picks is
/// allowable, its span is at least that of every allowable one, and greater
/// than that of every allowable one before it; there is none exactly when no
/// cut among them is allowable.
pub proof fn lemma_best_dim_widest(ds: Dataset, k: int, rows: Seq<usize>, i: int)
    requires
        0 <= i,
    ensures
        best_dim_upto(ds, k, rows, i) is None <==> !exists|d: int| 0 <= d < i && #[trigger] allowable(ds, k, rows, d),
        best_dim_upto(ds, k, rows, i) matches Some(b) ==> {
            &&& 0 <= b < i
            &&& allowable(ds, k, rows, b)
            &&& forall|d: int|
                0 <= d < i && #[trigger] allowable(ds, k, rows, d) ==> span_ge(
                    span_spec(ds, ds.qis.0@[b], rows),
                    span_spec(ds, ds.qis.0@[d], rows),
                )
            &&& forall|d: int|
                0 <= d < b && #[trigger] allowable(ds, k, rows, d) ==> span_gt(
                    span_spec(ds, ds.qis.0@[b], rows),
                    span_spec(ds, ds.qis.0@[d], rows),
                )
        },
    decreases i,
{
    if i > 0 {
        lemma_best_dim_widest(ds, k, rows, i - 1);
        let s = |d: int| span_spec(ds, ds.qis.0@[d], rows);
        if allowable(ds, k, rows, i - 1) {
            match best_dim_upto(ds, k, rows, i - 1) {
                None => {
                    assert forall|d: int| 0 <= d < i && #[trigger] allowable(ds, k, rows, d) implies span_ge(
                        span_spec(ds, ds.qis.0@[i - 1], rows),
                        span_spec(ds, ds.qis.0@[d], rows),
                    ) by {
                        assert(d == i - 1);
                    }
                },
                Some(b) => {
                    lemma_span_den_pos(ds, ds.qis.0@[b], rows);
                    lemma_span_den_pos(ds, ds.qis.0@[i - 1], rows);
                    if span_gt(s(i - 1), s(b)) {
                        assert forall|d: int| 0 <= d < i - 1 && #[trigger] allowable(ds, k, rows, d) implies span_gt(
                            span_spec(ds, ds.qis.0@[i - 1], rows),
                            span_spec(ds, ds.qis.0@[d], rows),
                        ) by {
                            lemma_span_den_pos(ds, ds.qis.0@[d], rows);
                            lemma_span_trans(s(d), s(b), s(i - 1));
                        }
                        assert forall|d: int| 0 <= d < i && #[trigger] allowable(ds, k, rows, d) implies span_ge(
                            span_spec(ds, ds.qis.0@[i - 1], rows),
                            span_spec(ds, ds.qis.0@[d], rows),
                        ) by {
                            if d < i - 1 {
                                assert(span_gt(s(i - 1), s(d)));
                            }
                        }
                    } else {
                        assert forall|d: int| 0 <= d < i && #[trigger] allowable(ds, k, rows, d) implies span_ge(
                            span_spec(ds, ds.qis.0@[b], rows),
                            span_spec(ds, ds.qis.0@[d], rows),
                        ) by {
                            if d == i - 1 {
                                assert(!span_gt(s(i - 1), s(b)));
                            }
                        }
                    }
                },
            }
        } else {
            if exists|d: int| 0 <= d < i && #[trigger] allowable(ds, k, rows, d) {
                let d = choose|d: int| 0 <= d < i && #[trigger] allowable(ds, k, rows, d);
                assert(d < i - 1);
            }
        }
    }
}

/// Mondrian cuts on the widest quasi-identifier it may cut on: when the cut
/// on some quasi-identifier leaves at least `k` rows on each side, the cut
/// made is such a cut on a quasi-identifier whose spread (see `span_spec`) is
/// at least that of every one that allows a cut, and greater than that of
/// every one before it that does; when none does, no cut is made.
pub proof fn lemma_try_split_widest(ds: Dataset, k: int, rows: Seq<usize>)
    ensures
        try_split_spec(ds, k, rows) is None <==> !exists|d: int|
            0 <= d < ds.qis.0@.len() && #[trigger] allowable(ds, k, rows, d),
        try_split_spec(ds, k, rows) matches Some(cut) ==> exists|b: int|
            {
                &&& 0 <= b < ds.qis.0@.len()
                &&& #[trigger] allowable(ds, k, rows, b)
                &&& split_spec(ds, ds.qis.0@[b], rows) == Some(cut)
                &&& forall|d: int|
                    0 <= d < ds.qis.0@.len() && #[trigger] allowable(ds, k, rows, d) ==> span_ge(
                        span_spec(ds, ds.qis.0@[b], rows),
                        span_spec(ds, ds.qis.0@[d], rows),
                    )
                &&& forall|d: int|
                    0 <= d < b && #[trigger] allowable(ds, k, rows, d) ==> span_gt(
                        span_spec(ds, ds.qis.0@[b], rows),
                        span_spec(ds, ds.qis.0@[d], rows),
                    )
            },
{
    let n = ds.qis.0@.len() as int;
    lemma_best_dim_widest(ds, k, rows, n);
    match best_dim_upto(ds, k, rows, n) {
        Some(b) => {
            assert(split_spec(ds, ds.qis.0@[b], rows) is Some);
            assert(allowable(ds, k, rows, b));
        },
        None => {},
    }
}

/// Every value of `distinct_upto(v, rows, i)` is the value of one of the rows `rows[..i]`.
pub proof fn lemma_distinct_from_rows(v: Seq<Option<String>>, rows: Seq<usize>, i: int)
    requires
        0 <= i <= rows.len(),
    ensures
        forall|q: int|
            0 <= q < distinct_upto(v, rows, i).len() ==> exists|j: int|
                0 <= j < i && str_at(v, rows[j] as int) == Some(#[trigger] distinct_upto(v, rows, i)[q]),
    decreases i,
{
    if i > 0 {
        lemma_distinct_from_rows(v, rows, i - 1);
        let rest = distinct_upto(v, rows, i - 1);
        let cur = distinct_upto(v, rows, i);
        assert forall|q: int| 0 <= q < cur.len() implies exists|j: int|
            0 <= j < i && str_at(v, rows[j] as int) == Some(#[trigger] cur[q]) by {
            if q < rest.len() {
                assert(cur[q] == rest[q]);
                let j = choose|j: int| 0 <= j < i - 1 && str_at(v, rows[j] as int) == Some(#[trigger] rest[q]);
                assert(str_at(v, rows[j] as int) == Some(cur[q]));
            } else {
                assert(str_at(v, rows[i - 1] as int) == Some(cur[q]));
            }
        }
    }
}

/// Filtering by a predicate that holds of no item gives nothing.
pub proof fn lemma_filter_none<A>(s: Seq<A>, p: spec_fn(A) -> bool)
    requires
        forall|j: int| 0 <= j < s.len() ==> !p(#[trigger] s[j]),
    ensures
        s.filter(p).len() == 0,
    decreases s.len(),
{
    reveal(Seq::filter);
    if s.len() > 0 {
        assert forall|j: int| 0 <= j < s.drop_last().len() implies !p(#[trigger] s.drop_last()[j]) by {
            assert(s.drop_last()[j] == s[j]);
        }
        lemma_filter_none(s.drop_last(), p);
        assert(!p(s[s.len() - 1]));
    }
}

/// Filtering by a predicate that holds of every item but the one at `m` leaves all but one.
pub proof fn lemma_filter_all_but_one<A>(s: Seq<A>, p: spec_fn(A) -> bool, m: int)
    requires
        0 <= m < s.len(),
        !p(s[m]),
        forall|j: int| 0 <= j < s.len() && j != m ==> p(#[trigger] s[j]),
    ensures
        s.filter(p).len() == s.len() - 1,
    decreases s.len(),
{
    reveal(Seq::filter);
    let d = s.drop_last();
    if m == s.len() - 1 {
        assert forall|j: int| 0 <= j < d.len() implies p(#[trigger] d[j]) by {
            assert(d[j] == s[j]);
        }
        lemma_filter_all(d, p);
    } else {
        assert(d[m] == s[m]);
        assert forall|j: int| 0 <= j < d.len() && j != m implies p(#[trigger] d[j]) by {
            assert(d[j] == s[j]);
        }
        lemma_filter_all_but_one(d, p, m);
        assert(p(s[s.len() - 1]));
    }
}

/// Filtering by a predicate that holds of every item keeps them all.
pub proof fn lemma_filter_all<A>(s: Seq<A>, p: spec_fn(A) -> bool)
    requires
        forall|j: int| 0 <= j < s.len() ==> p(#[trigger] s[j]),
    ensures
        s.filter(p).len() == s.len(),
    decreases s.len(),
{
    reveal(Seq::filter);
    if s.len() > 0 {
        assert forall|j: int| 0 <= j < s.drop_last().len() implies p(#[trigger] s.drop_last()[j]) by {
            assert(s.drop_last()[j] == s[j]);
        }
        lemma_filter_all(s.drop_last(), p);
        assert(p(s[s.len() - 1]));
    }
}

/// Every value of `d` other than `d[m]` comes before it.
pub open spec fn is_top(d: Seq<Seq<char>>, m: int) -> bool {
    forall|j: int| 0 <= j < d.len() && j != m ==> lex_lt(#[trigger] d[j], d[m])
}

/// No value of `d` comes before `d[m]`.
pub open spec fn is_bottom(d: Seq<Seq<char>>, m: int) -> bool {
    forall|j: int| 0 <= j < d.len() ==> !lex_lt(#[trigger] d[j], d[m])
}

/// Among values without repeats, some value comes after every other one, and some value after none.
pub proof fn lemma_lex_extremes(d: Seq<Seq<char>>)
    requires
        d.len() >= 1,
        forall|a: int, b: int| 0 <= a < b < d.len() ==> d[a] != d[b],
    ensures
        exists|m: int| 0 <= m < d.len() && #[trigger] is_top(d, m),
        exists|m: int| 0 <= m < d.len() && #[trigger] is_bottom(d, m),
    decreases d.len(),
{
    let n = d.len() as int;
    if n == 1 {
        lemma_lex_irreflexive(d[0]);
        assert(is_top(d, 0));
        assert(is_bottom(d, 0));
    } else {
        let e = d.drop_last();
        lemma_lex_extremes(e);
        let x = d[n - 1];
        let hi = choose|m: int| 0 <= m < e.len() && #[trigger] is_top(e, m);
        let lo = choose|m: int| 0 <= m < e.len() && #[trigger] is_bottom(e, m);
        assert(e[hi] == d[hi] && e[lo] == d[lo]);
        lemma_lex_total(x, d[hi]);
        lemma_lex_total(x, d[lo]);
        lemma_lex_irreflexive(x);
        if lex_lt(d[hi], x) {
            assert forall|j: int| 0 <= j < d.len() && j != n - 1 implies lex_lt(#[trigger] d[j], d[n - 1]) by {
                if j != hi {
                    assert(e[j] == d[j]);
                    lemma_lex_transitive(d[j], d[hi], x);
                }
            }
            assert(is_top(d, n - 1));
        } else {
            assert forall|j: int| 0 <= j < d.len() && j != hi implies lex_lt(#[trigger] d[j], d[hi]) by {
                if j < n - 1 {
                    assert(e[j] == d[j]);
                }
            }
            assert(is_top(d, hi));
        }
        if lex_lt(x, d[lo]) {
            assert forall|j: int| 0 <= j < d.len() implies !lex_lt(#[trigger] d[j], d[n - 1]) by {
                if j < n - 1 {
                    assert(e[j] == d[j]);
                    if lex_lt(d[j], x) {
                        lemma_lex_transitive(d[j], x, d[lo]);
                        assert(!lex_lt(e[j], e[lo]));
                    }
                }
            }
            assert(is_bottom(d, n - 1));
        } else {
            assert forall|j: int| 0 <= j < d.len() implies !lex_lt(#[trigger] d[j], d[lo]) by {
                if j < n - 1 {
                    assert(e[j] == d[j]);
                }
            }
            assert(is_bottom(d, lo));
        }
    }
}

/// The rank of the value of row `r` among the sorted distinct values `d`, -1 when it has none.
pub open spec fn row_rank(v: Seq<Option<String>>, d: Seq<Seq<char>>, r: usize) -> int {
    match str_at(v, r as int) {
        Some(s) => rank(d, s),
        None => -1,
    }
}

/// Mondrian's cut of a text column halves its sorted distinct values: with
/// at least two distinct values among `rows`, the cut is made, the rows whose
/// value is among the first half (rank below `d / 2`) going to the lower side
/// and those whose value is among the rest to the upper side, both sides
/// holding rows; with fewer, no cut is made.
pub proof fn lemma_cat_split_halves(v: Seq<Option<String>>, rows: Seq<usize>)
    ensures
        ({
            let d = distinct_upto(v, rows, rows.len() as int);
            &&& d.len() < 2 ==> cat_split_spec(v, rows) is None
            &&& d.len() >= 2 ==> cat_split_spec(v, rows) == Some(
                (
                    rows.filter(|r: usize| 0 <= row_rank(v, d, r) < d.len() / 2),
                    rows.filter(|r: usize| row_rank(v, d, r) >= d.len() / 2),
                ),
            )
        }),
{
    let d = distinct_upto(v, rows, rows.len() as int);
    if d.len() >= 2 {
        let n = d.len() as int;
        let lo_p = |r: usize| 0 <= row_rank(v, d, r) < d.len() / 2;
        let hi_p = |r: usize| row_rank(v, d, r) >= d.len() / 2;
        assert((|r: usize| in_lower(v, d, r)) =~= lo_p);
        assert((|r: usize| in_upper(v, d, r)) =~= hi_p);
        lemma_distinct_covers(v, rows, rows.len() as int);
        lemma_distinct_from_rows(v, rows, rows.len() as int);
        lemma_lex_extremes(d);
        let hi = choose|m: int| 0 <= m < d.len() && #[trigger] is_top(d, m);
        let lo = choose|m: int| 0 <= m < d.len() && #[trigger] is_bottom(d, m);
        lemma_lex_irreflexive(d[hi]);
        lemma_filter_all_but_one(d, |x: Seq<char>| lex_lt(x, d[hi]), hi);
        assert(rank(d, d[hi]) == n - 1);
        lemma_filter_none(d, |x: Seq<char>| lex_lt(x, d[lo]));
        assert(rank(d, d[lo]) == 0);
        let jh = choose|j: int| 0 <= j < rows.len() && str_at(v, rows[j] as int) == Some(#[trigger] d[hi]);
        let jl = choose|j: int| 0 <= j < rows.len() && str_at(v, rows[j] as int) == Some(#[trigger] d[lo]);
        assert(hi_p(rows[jh]));
        assert(lo_p(rows[jl]));
        rows.lemma_filter_contains(hi_p, jh);
        rows.lemma_filter_contains(lo_p, jl);
        assert(rows.filter(hi_p).len() > 0);
        assert(rows.filter(lo_p).len() > 0);
    }
}

/// Mondrian's cut on a categorical quasi-identifier whose column holds text
/// halves the sorted distinct values of the rows (see `lemma_cat_split_halves`).
pub proof fn lemma_split_categorical_halves(ds: Dataset, qi: QuasiIdentifier, rows: Seq<usize>)
    requires
        qi.qi_type is Categorical,
        first_column_from(ds.df.columns@, qi.column_name@, 0) matches Some(c) && ds.df.columns@[c].data is Str,
    ensures
        ({
            let c = first_column_from(ds.df.columns@, qi.column_name@, 0)->0;
            let v = ds.df.columns@[c].data->Str_0@;
            let d = distinct_upto(v, rows, rows.len() as int);
            &&& d.len() < 2 ==> split_spec(ds, qi, rows) is None
            &&& d.len() >= 2 ==> split_spec(ds, qi, rows) == Some(
                (
                    rows.filter(|r: usize| 0 <= row_rank(v, d, r) < d.len() / 2),
                    rows.filter(|r: usize| row_rank(v, d, r) >= d.len() / 2),
                ),
            )
        }),
{
    let c = first_column_from(ds.df.columns@, qi.column_name@, 0)->0;
    let v = ds.df.columns@[c].data->Str_0@;
    lemma_cat_split_halves(v, rows);
}

/// The groups Mondrian makes of `rows`: none when fewer than `k`; else, if a
/// cut is allowable, the groups of its lower side then those of its upper
/// side; else the rows themselves as one group.
pub open spec fn partition_spec(ds: Dataset, k: int, rows: Seq<usize>) -> Seq<Seq<usize>>
    decreases rows.len(),
{
    if rows.len() < k {
        Seq::empty()
    } else {
        match try_split_spec(ds, k, rows) {
            Some((l, h)) => {
                proof {
                    lemma_best_dim(ds, k, rows, ds.qis.0@.len() as int);
                    let d = best_dim_upto(ds, k, rows, ds.qis.0@.len() as int)->0;
                    lemma_split_sizes(ds, ds.qis.0@[d], rows);
                }
                partition_spec(ds, k, l) + partition_spec(ds, k, h)
            },
            None => seq![rows],
        }
    }
}

/// The row lists of a list of groups.
pub open spec fn groups_view(v: Seq<Vec<usize>>) -> Seq<Seq<usize>> {
    v.map_values(|g: Vec<usize>| g@)
}

impl Mondrian {
    /// The cut Mondrian makes on `rows` (see `try_split_spec`).
    pub fn try_split(k: usize, dataset: &Dataset, rows: &Vec<usize>) -> (r: Option<(Vec<usize>, Vec<usize>)>)
        ensures
            match try_split_spec(*dataset, k as int, rows@) {
                Some((l, h)) => r matches Some((a, b)) && a@ == l && b@ == h,
                None => r is None,
            },
            r is None <==> !exists|d: int| 0 <= d < dataset.qis.0@.len() && #[trigger] allowable(*dataset, k as int, rows@, d),
            r matches Some((a, b)) ==> exists|c: int|
                {
                    &&& 0 <= c < dataset.qis.0@.len()
                    &&& #[trigger] allowable(*dataset, k as int, rows@, c)
                    &&& split_spec(*dataset, dataset.qis.0@[c], rows@) == Some((a@, b@))
                    &&& forall|d: int|
                        0 <= d < dataset.qis.0@.len() && #[trigger] allowable(*dataset, k as int, rows@, d) ==> span_ge(
                            span_spec(*dataset, dataset.qis.0@[c], rows@),
                            span_spec(*dataset, dataset.qis.0@[d], rows@),
                        )
                },
    {
        proof {
            lemma_try_split_widest(*dataset, k as int, rows@);
        }
        let n = dataset.qis.0.len();
        let mut best: Option<(usize, i128, u128, Vec<usize>, Vec<usize>)> = None;
        for i in 0..n
            invariant
                n == dataset.qis.0@.len(),
                match best_dim_upto(*dataset, k as int, rows@, i as int) {
                    None => best is None,
                    Some(d) => best matches Some((bd, x, y, l, h)) && bd == d && (x as int, y as int)
                        == span_spec(*dataset, dataset.qis.0@[d], rows@) && -0x1_0000_0000_0000_0000 < x
                        < 0x1_0000_0000_0000_0000 && 0 < y < 0x1_0000_0000_0000_0000 && split_spec(
                        *dataset,
                        dataset.qis.0@[d],
                        rows@,
                    ) == Some((l@, h@)),
                },
        {
            let qi = &dataset.qis.0[i];
            let cut = Self::split_on_dim(dataset, qi, rows);
            match cut {
                Some((l, h)) => {
                    if l.len() >= k && h.len() >= k {
                        let (x, y) = Self::normalized_span(dataset, qi, rows);
                        let replace = match &best {
                            None => true,
                            Some((_, bx, by, _, _)) => frac_gt(x, y, *bx, *by),
                        };
                        if replace {
                            best = Some((i, x, y, l, h));
                        }
                    }
                },
                None => {},
            }
        }
        match best {
            None => None,
            Some((_, _, _, l, h)) => Some((l, h)),
        }
    }

    /// Appends to `leaves` the groups Mondrian makes of `rows` (see `partition_spec`).
    pub fn partition(k: usize, dataset: &Dataset, rows: Vec<usize>, leaves: &mut Vec<Vec<usize>>)
        ensures
            groups_view(final(leaves)@) == groups_view(old(leaves)@) + partition_spec(*dataset, k as int, rows@),
        decreases rows@.len(),
    {
        if rows.len() < k {
            assert(groups_view(leaves@) =~= groups_view(leaves@) + Seq::<Seq<usize>>::empty());
            return;
        }
        let cut = Self::try_split(k, dataset, &rows);
        match cut {
            Some((left, right)) => {
                proof {
                    lemma_best_dim(*dataset, k as int, rows@, dataset.qis.0@.len() as int);
                    let d = best_dim_upto(*dataset, k as int, rows@, dataset.qis.0@.len() as int)->0;
                    lemma_split_sizes(*dataset, dataset.qis.0@[d], rows@);
                }
                let ghost before = groups_view(leaves@);
                let ghost lv = left@;
                let ghost rv = right@;
                Self::partition(k, dataset, left, leaves);
                Self::partition(k, dataset, right, leaves);
                assert(groups_view(leaves@) =~= before + partition_spec(*dataset, k as int, rows@));
            },
            None => {
                let ghost before = groups_view(leaves@);
                let ghost rv = rows@;
                leaves.push(rows);
                assert(groups_view(leaves@) =~= before + partition_spec(*dataset, k as int, rv));
            },
        }
    }
}


/// Why a group's label cannot be made.
#[derive(Clone, Copy, Debug, PartialEq, Eq)]
pub enum LabelFailure {
    ColumnNotFound,
    WrongColumnType,
    MissingTaxonomy,
    NoCommonAncestor,
}

/// Whether `e` reports `f` for column `name`.
pub open spec fn reports_label(e: AlgorithmError, f: LabelFailure, name: Seq<char>) -> bool {
    match (e, f) {
        (AlgorithmError::ColumnNotFound(n), LabelFailure::ColumnNotFound) => n@ == name,
        (AlgorithmError::WrongColumnType(n), LabelFailure::WrongColumnType) => n@ == name,
        (AlgorithmError::MissingTaxonomy(n), LabelFailure::MissingTaxonomy) => n@ == name,
        (AlgorithmError::NoCommonAncestor(n), LabelFailure::NoCommonAncestor) => n@ == name,
        _ => false,
    }
}

/// The label of an interval: `low` when it holds one value, else `low-high`.
pub open spec fn range_label(lo: int, hi: int) -> Seq<char> {
    if lo == hi {
        int_decimal(lo)
    } else {
        int_decimal(lo) + seq!['-'] + int_decimal(hi)
    }
}

/// The label a group of `rows` gets on quasi-identifier `qi`: for a numerical
/// one, the range of its values (`*` when it has none); for a categorical one,
/// the lowest common ancestor of its distinct values in the column's taxonomy.
pub open spec fn leaf_label_spec(ds: Dataset, qi: QuasiIdentifier, rows: Seq<usize>) -> Result<Seq<char>, LabelFailure> {
    let name = qi.column_name@;
    let col = first_column_from(ds.df.columns@, name, 0);
    match qi.qi_type {
        QIType::Numerical { .. } => match col {
            None => Err(LabelFailure::ColumnNotFound),
            Some(c) => match ds.df.columns@[c].data {
                ColumnData::Str(_) => Err(LabelFailure::WrongColumnType),
                ColumnData::Int(v) => Ok(
                    match rows_min_max(v@, rows, rows.len() as int) {
                        Some((lo, hi)) => range_label(lo, hi),
                        None => seq!['*'],
                    },
                ),
            },
        },
        QIType::Categorical { .. } => match lookup_named(ds.taxonomies@.categorical, name) {
            None => Err(LabelFailure::MissingTaxonomy),
            Some(t) => match col {
                None => Err(LabelFailure::ColumnNotFound),
                Some(c) => match ds.df.columns@[c].data {
                    ColumnData::Int(_) => Err(LabelFailure::WrongColumnType),
                    ColumnData::Str(v) => match lca_spec(t.nodes, distinct_upto(v@, rows, rows.len() as int)) {
                        Some(s) => Ok(s),
                        None => Err(LabelFailure::NoCommonAncestor),
                    },
                },
            },
        },
    }
}

impl Mondrian {
    /// The label of a group of `rows` on quasi-identifier `qi` (see `leaf_label_spec`).
    pub fn generalize_leaf(dataset: &Dataset, qi: &QuasiIdentifier, rows: &Vec<usize>) -> (r: Result<String, AlgorithmError>)
        requires
            dataset.wf(),
        ensures
            match leaf_label_spec(*dataset, *qi, rows@) {
                Ok(s) => r matches Ok(x) && x@ == s,
                Err(f) => r matches Err(e) && reports_label(e, f, qi.column_name@),
            },
    {
        let ghost name = qi.column_name@;
        proof {
            lemma_first_column(dataset.df.columns@, name, 0);
        }
        match &qi.qi_type {
            QIType::Numerical { .. } => {
                let c = dataset.df.column_index(qi.column_name.as_str());
                match c {
                    None => Err(AlgorithmError::ColumnNotFound(qi.column_name.clone())),
                    Some(ci) => {
                        assert(dataset.df.columns@[ci as int].data == dataset.df.columns[ci as int].data);
                        match &dataset.df.columns[ci].data {
                            ColumnData::Str(_) => Err(AlgorithmError::WrongColumnType(qi.column_name.clone())),
                            ColumnData::Int(v) => {
                                let mut cs: Vec<char> = Vec::new();
                                match Self::numerical_min_max(v, rows) {
                                    Some((lo, hi)) => {
                                        push_decimal_i64(&mut cs, lo);
                                        if lo != hi {
                                            cs.push('-');
                                            push_decimal_i64(&mut cs, hi);
                                        }
                                        assert(cs@ =~= range_label(lo as int, hi as int));
                                    },
                                    None => {
                                        cs.push('*');
                                        assert(cs@ =~= seq!['*']);
                                    },
                                }
                                Ok(string_from_chars(&cs))
                            },
                        }
                    },
                }
            },
            QIType::Categorical { .. } => {
                match dataset.taxonomies.categorical(qi.column_name.as_str()) {
                    None => Err(AlgorithmError::MissingTaxonomy(qi.column_name.clone())),
                    Some(t) => {
                        let c = dataset.df.column_index(qi.column_name.as_str());
                        match c {
                            None => Err(AlgorithmError::ColumnNotFound(qi.column_name.clone())),
                            Some(ci) => {
                                assert(dataset.df.columns@[ci as int].data == dataset.df.columns[ci as int].data);
                                match &dataset.df.columns[ci].data {
                                    ColumnData::Int(_) => Err(AlgorithmError::WrongColumnType(qi.column_name.clone())),
                                    ColumnData::Str(v) => {
                                        let distinct = distinct_values(v, rows);
                                        let mut refs: Vec<&str> = Vec::new();
                                        for i in 0..distinct.len()
                                            invariant
                                                refs@.len() == i,
                                                forall|q: int| 0 <= q < i ==> #[trigger] refs@[q]@ == distinct@[q]@,
                                        {
                                            refs.push(distinct[i].as_str());
                                        }
                                        assert(strs_view(refs@) =~= strings_view(distinct@));
                                        match t.find_lca(refs.as_slice()) {
                                            Some(s) => Ok(s),
                                            None => Err(AlgorithmError::NoCommonAncestor(qi.column_name.clone())),
                                        }
                                    },
                                }
                            },
                        }
                    },
                }
            },
        }
    }
}


/// Whether row `r` is in some group.
pub open spec fn covered(leaves: Seq<Seq<usize>>, r: usize) -> bool {
    exists|l: int| 0 <= l < leaves.len() && #[trigger] leaves[l].contains(r)
}

/// The group row `r` is in.
pub open spec fn owner(leaves: Seq<Seq<usize>>, r: usize) -> int {
    choose|l: int| 0 <= l < leaves.len() && #[trigger] leaves[l].contains(r)
}

/// The rows `0..n`.
pub open spec fn row_range(n: int) -> Seq<usize> {
    Seq::new(n as nat, |i: int| i as usize)
}

/// The rows that are in some group, in table order.
pub open spec fn kept_rows(leaves: Seq<Seq<usize>>, n: int) -> Seq<usize> {
    row_range(n).filter(|r: usize| covered(leaves, r))
}

/// Position of the first quasi-identifier at or after `i` on column `name`.
pub open spec fn qi_position(qis: Seq<QuasiIdentifier>, name: Seq<char>, i: int) -> Option<int>
    decreases qis.len() - i,
{
    if 0 <= i < qis.len() {
        if qis[i].column_name@ == name {
            Some(i)
        } else {
            qi_position(qis, name, i + 1)
        }
    } else {
        None
    }
}

/// The label of group `l` on the `q`-th quasi-identifier (empty if it cannot be made).
pub open spec fn label_of(ds: Dataset, leaves: Seq<Seq<usize>>, l: int, q: int) -> Seq<char> {
    match leaf_label_spec(ds, ds.qis.0@[q], leaves[l]) {
        Ok(s) => s,
        Err(_) => Seq::empty(),
    }
}

/// The cells of `c` at `rows`, in that order.
pub open spec fn gather(c: CellsModel, rows: Seq<usize>) -> CellsModel {
    match c {
        CellsModel::Int(v) => CellsModel::Int(rows.map_values(|r: usize| v[r as int])),
        CellsModel::Str(v) => CellsModel::Str(rows.map_values(|r: usize| v[r as int])),
    }
}

/// The anonymized table: the rows that are in some group, in table order; in
/// each quasi-identifier column the label of the row's group (as text), in
/// every other column the row's own cell.
pub open spec fn output_spec(ds: Dataset, leaves: Seq<Seq<usize>>) -> TableModel {
    let ord = kept_rows(leaves, ds.df.height as int);
    TableModel {
        height: ord.len() as int,
        columns: ds.df@.columns.map_values(
            |c: (Seq<char>, CellsModel)|
                (
                    c.0,
                    match qi_position(ds.qis.0@, c.0, 0) {
                        Some(q) => CellsModel::Str(
                            ord.map_values(|r: usize| Some(label_of(ds, leaves, owner(leaves, r), q))),
                        ),
                        None => gather(c.1, ord),
                    },
                ),
        ),
    }
}

/// A table with the same columns, of the same kinds, and no rows.
pub open spec fn empty_like(t: TableModel) -> TableModel {
    TableModel {
        height: 0,
        columns: t.columns.map_values(
            |c: (Seq<char>, CellsModel)|
                (
                    c.0,
                    match c.1 {
                        CellsModel::Int(_) => CellsModel::Int(Seq::empty()),
                        CellsModel::Str(_) => CellsModel::Str(Seq::empty()),
                    },
                ),
        ),
    }
}

/// Whether the label of group `l` on the `q`-th quasi-identifier can be made.
pub open spec fn label_ok(ds: Dataset, leaves: Seq<Seq<usize>>, l: int, q: int) -> bool {
    leaf_label_spec(ds, ds.qis.0@[q], leaves[l]) is Ok
}

/// Every group's label on every quasi-identifier can be made.
pub open spec fn labels_ok(ds: Dataset, leaves: Seq<Seq<usize>>) -> bool {
    forall|l: int, q: int|
        0 <= l < leaves.len() && 0 <= q < ds.qis.0@.len() ==> #[trigger] label_ok(ds, leaves, l, q)
}

/// `e` reports the first label (group by group, quasi-identifier by
/// quasi-identifier) that cannot be made.
pub open spec fn reports_first_failure(ds: Dataset, leaves: Seq<Seq<usize>>, e: AlgorithmError) -> bool {
    exists|l: int, q: int|
        0 <= l < leaves.len() && 0 <= q < ds.qis.0@.len() && (forall|l2: int, q2: int|
            (0 <= l2 < l && 0 <= q2 < ds.qis.0@.len()) || (l2 == l && 0 <= q2 < q) ==> #[trigger] label_ok(
                ds,
                leaves,
                l2,
                q2,
            )) && match #[trigger] leaf_label_spec(ds, ds.qis.0@[q], leaves[l]) {
            Err(f) => reports_label(e, f, ds.qis.0@[q].column_name@),
            Ok(_) => false,
        }
}

/// Groups that hold rows of the table, each at most once, and no row twice.
pub open spec fn valid_leaves(leaves: Seq<Seq<usize>>, n: int) -> bool {
    &&& forall|l: int, i: int| 0 <= l < leaves.len() && 0 <= i < leaves[l].len() ==> #[trigger] leaves[l][i] < n
    &&& forall|l1: int, l2: int, x: usize|
        0 <= l1 < leaves.len() && 0 <= l2 < leaves.len() && l1 != l2 && #[trigger] leaves[l1].contains(x)
            ==> !#[trigger] leaves[l2].contains(x)
}

impl Mondrian {
    /// An empty table with the same columns, of the same kinds.
    pub fn empty_df_like(df: &Table) -> (t: Table)
        ensures
            t@ == empty_like(df@),
            t.wf(),
    {
        let mut cols: Vec<Column> = Vec::new();
        for i in 0..df.columns.len()
            invariant
                cols@.len() == i,
                forall|q: int| 0 <= q < i ==> (#[trigger] cols@[q]).name@ == df.columns@[q].name@,
                forall|q: int|
                    0 <= q < i ==> (#[trigger] cols@[q]).data@ == match df.columns@[q].data@ {
                        CellsModel::Int(_) => CellsModel::Int(Seq::empty()),
                        CellsModel::Str(_) => CellsModel::Str(Seq::empty()),
                    },
                forall|q: int| 0 <= q < i ==> crate::data::table::column_len((#[trigger] cols@[q]).data) == 0,
        {
            let data = match &df.columns[i].data {
                ColumnData::Int(_) => ColumnData::Int(Vec::new()),
                ColumnData::Str(_) => {
                    let v: Vec<Option<String>> = Vec::new();
                    assert(opt_strings_view(v@) =~= Seq::empty());
                    ColumnData::Str(v)
                },
            };
            cols.push(Column { name: df.columns[i].name.clone(), data });
        }
        let t = Table { height: 0, columns: cols };
        assert(t@.columns =~= empty_like(df@).columns);
        t
    }
}


/// Each row's group: the labels are built by group and quasi-identifier.
fn compute_labels(dataset: &Dataset, leaves: &Vec<Vec<usize>>) -> (r: Result<Vec<Vec<String>>, AlgorithmError>)
    requires
        dataset.wf(),
    ensures
        match r {
            Ok(labels) => labels_ok(*dataset, groups_view(leaves@)) && labels@.len() == leaves@.len()
                && (forall|l: int| 0 <= l < leaves@.len() ==> (#[trigger] labels@[l])@.len() == dataset.qis.0@.len())
                && forall|l: int, q: int|
                0 <= l < leaves@.len() && 0 <= q < dataset.qis.0@.len() ==> (#[trigger] labels@[l]@[q])@ == label_of(
                    *dataset,
                    groups_view(leaves@),
                    l,
                    q,
                ),
            Err(e) => !labels_ok(*dataset, groups_view(leaves@)) && reports_first_failure(
                *dataset,
                groups_view(leaves@),
                e,
            ),
        },
{
    let ghost gv = groups_view(leaves@);
    let nq = dataset.qis.0.len();
    let mut labels: Vec<Vec<String>> = Vec::new();
    for l in 0..leaves.len()
        invariant
            gv == groups_view(leaves@),
            nq == dataset.qis.0@.len(),
            dataset.wf(),
            labels@.len() == l,
            forall|l2: int, q2: int| 0 <= l2 < l && 0 <= q2 < nq ==> #[trigger] label_ok(*dataset, gv, l2, q2),
            forall|l2: int| 0 <= l2 < l ==> (#[trigger] labels@[l2])@.len() == nq,
            forall|l2: int, q2: int|
                0 <= l2 < l && 0 <= q2 < nq ==> (#[trigger] labels@[l2]@[q2])@ == label_of(*dataset, gv, l2, q2),
    {
        let mut row: Vec<String> = Vec::new();
        for q in 0..nq
            invariant
                gv == groups_view(leaves@),
                nq == dataset.qis.0@.len(),
                dataset.wf(),
                l < leaves@.len(),
                labels@.len() == l,
                forall|l2: int, q2: int|
                    0 <= l2 < l && 0 <= q2 < nq ==> #[trigger] label_ok(*dataset, gv, l2, q2),
                forall|l2: int| 0 <= l2 < l ==> (#[trigger] labels@[l2])@.len() == nq,
                forall|l2: int, q2: int|
                    0 <= l2 < l && 0 <= q2 < nq ==> (#[trigger] labels@[l2]@[q2])@ == label_of(*dataset, gv, l2, q2),
                row@.len() == q,
                forall|q2: int| 0 <= q2 < q ==> #[trigger] label_ok(*dataset, gv, l as int, q2),
                forall|q2: int|
                    0 <= q2 < q ==> (#[trigger] row@[q2])@ == label_of(*dataset, gv, l as int, q2),
        {
            assert(gv[l as int] == leaves@[l as int]@);
            match Mondrian::generalize_leaf(dataset, &dataset.qis.0[q], &leaves[l]) {
                Ok(s) => {
                    row.push(s);
                },
                Err(e) => {
                    assert(reports_first_failure(*dataset, gv, e)) by {
                        assert(forall|l2: int, q2: int|
                            (0 <= l2 < l && 0 <= q2 < nq) || (l2 == l && 0 <= q2 < q) ==> #[trigger] label_ok(
                                *dataset,
                                gv,
                                l2,
                                q2,
                            ));
                        assert(leaf_label_spec(*dataset, dataset.qis.0@[q as int], gv[l as int]) is Err);
                    }
                    assert(!label_ok(*dataset, gv, l as int, q as int));
                    return Err(e);
                },
            }
        }
        let ghost before = labels@;
        let ghost rv = row@;
        labels.push(row);
        assert(labels@[l as int]@ == rv);
        assert forall|l2: int| 0 <= l2 < l + 1 implies (#[trigger] labels@[l2])@.len() == nq by {
            if l2 < l {
                assert(labels@[l2] == before[l2]);
            }
        }
        assert forall|l2: int, q2: int|
            0 <= l2 < l + 1 && 0 <= q2 < nq implies (#[trigger] labels@[l2]@[q2])@
                == label_of(*dataset, gv, l2, q2) by {
            if l2 < l {
                assert(labels@[l2] == before[l2]);
            } else {
                assert(labels@[l2]@ == rv);
            }
        }
    }
    Ok(labels)
}

/// For each row `0..n`, the group it is in.
fn row_owners(leaves: &Vec<Vec<usize>>, n: usize) -> (owners: Vec<Option<usize>>)
    requires
        valid_leaves(groups_view(leaves@), n as int),
    ensures
        owners@.len() == n,
        forall|r: int|
            0 <= r < n ==> match #[trigger] owners@[r] {
                Some(l) => covered(groups_view(leaves@), r as usize) && l as int == owner(
                    groups_view(leaves@),
                    r as usize,
                ) && l < leaves@.len(),
                None => !covered(groups_view(leaves@), r as usize),
            },
{
    let ghost gv = groups_view(leaves@);
    let mut owners: Vec<Option<usize>> = Vec::new();
    for r in 0..n
        invariant
            owners@.len() == r,
            forall|q: int| 0 <= q < r ==> owners@[q] is None,
    {
        owners.push(None);
    }
    for l in 0..leaves.len()
        invariant
            gv == groups_view(leaves@),
            valid_leaves(gv, n as int),
            owners@.len() == n,
            forall|r: int|
                0 <= r < n ==> match #[trigger] owners@[r] {
                    Some(l2) => l2 < l && gv[l2 as int].contains(r as usize),
                    None => forall|l2: int| #![trigger gv[l2].contains(r as usize)] 0 <= l2 < l ==> !gv[l2].contains(r as usize),
                },
    {
        let leaf = &leaves[l];
        assert(gv[l as int] == leaf@);
        for i in 0..leaf.len()
            invariant
                gv == groups_view(leaves@),
                valid_leaves(gv, n as int),
                gv[l as int] == leaf@,
                l < leaves@.len(),
                owners@.len() == n,
                forall|r: int|
                    0 <= r < n ==> match #[trigger] owners@[r] {
                        Some(l2) => l2 <= l && gv[l2 as int].contains(r as usize),
                        None => (forall|l2: int| #![trigger gv[l2].contains(r as usize)] 0 <= l2 < l ==> !gv[l2].contains(r as usize))
                            && !leaf@.take(i as int).contains(r as usize),
                    },
        {
            let r = leaf[i];
            assert(gv[l as int][i as int] == r);
            assert(r < n);
            owners.set(r, Some(l));
            assert forall|r2: int| 0 <= r2 < n implies match #[trigger] owners@[r2] {
                Some(l2) => l2 <= l && gv[l2 as int].contains(r2 as usize),
                None => (forall|l2: int| #![trigger gv[l2].contains(r2 as usize)] 0 <= l2 < l ==> !gv[l2].contains(r2 as usize))
                    && !leaf@.take(i as int + 1).contains(r2 as usize),
            } by {
                if r2 == r {
                    assert(leaf@[i as int] == r);
                } else {
                    if owners@[r2] is None {
                        if leaf@.take(i as int + 1).contains(r2 as usize) {
                            let j = choose|j: int| 0 <= j < i + 1 && #[trigger] leaf@.take(i as int + 1)[j] == r2 as usize;
                            assert(leaf@.take(i as int)[j] == r2 as usize);
                        }
                    }
                }
            }
        }
        assert(leaf@.take(leaf@.len() as int) =~= leaf@);
    }
    assert forall|r: int|
        0 <= r < n implies match #[trigger] owners@[r] {
            Some(l) => covered(gv, r as usize) && l as int == owner(gv, r as usize) && l < leaves@.len(),
            None => !covered(gv, r as usize),
        } by {
        match owners@[r] {
            Some(l) => {
                assert(gv[l as int].contains(r as usize));
                let o = owner(gv, r as usize);
                assert(0 <= o < gv.len() && gv[o].contains(r as usize));
            },
            None => {},
        }
    }
    owners
}

/// The rows that are in some group, in table order.
fn kept_row_list(owners: &Vec<Option<usize>>, Ghost(leaves): Ghost<Seq<Seq<usize>>>) -> (ord: Vec<usize>)
    requires
        forall|r: int| 0 <= r < owners@.len() ==> ((#[trigger] owners@[r]) is Some <==> covered(leaves, r as usize)),
    ensures
        ord@ == kept_rows(leaves, owners@.len() as int),
{
    let n = owners.len();
    let ghost rr = row_range(n as int);
    let ghost p = |r: usize| covered(leaves, r);
    let mut ord: Vec<usize> = Vec::new();
    for r in 0..n
        invariant
            n == owners@.len(),
            rr == row_range(n as int),
            p == (|r: usize| covered(leaves, r)),
            forall|r2: int| 0 <= r2 < n ==> ((#[trigger] owners@[r2]) is Some <==> covered(leaves, r2 as usize)),
            ord@ == rr.take(r as int).filter(p),
    {
        proof {
            rr.take(r as int).lemma_filter_push(rr[r as int], p);
            assert(rr.take(r as int + 1) =~= rr.take(r as int).push(rr[r as int]));
            assert(rr[r as int] == r);
        }
        if owners[r].is_some() {
            ord.push(r);
        }
    }
    assert(rr.take(n as int) =~= rr);
    ord
}

/// Position of the first quasi-identifier on column `name`.
fn find_qi_position(qis: &Vec<QuasiIdentifier>, name: &String) -> (r: Option<usize>)
    ensures
        r matches Some(q) ==> qi_position(qis@, name@, 0) == Some(q as int) && q < qis@.len(),
        r is None ==> qi_position(qis@, name@, 0) is None,
{
    let mut i: usize = 0;
    while i < qis.len()
        invariant
            0 <= i <= qis@.len(),
            qi_position(qis@, name@, 0) == qi_position(qis@, name@, i as int),
        decreases qis@.len() - i,
    {
        if qis[i].column_name == *name {
            return Some(i);
        }
        i += 1;
    }
    None
}

impl Mondrian {
    /// Builds the anonymized table from the groups (see `output_spec`); an
    /// empty table like the input when there are no groups. Fails on the first
    /// label that cannot be made.
    pub fn build_output_df(dataset: &Dataset, leaves: &Vec<Vec<usize>>) -> (r: Result<Table, AlgorithmError>)
        requires
            dataset.wf(),
            valid_leaves(groups_view(leaves@), dataset.df.height as int),
        ensures
            leaves@.len() == 0 ==> (r matches Ok(t) && t@ == empty_like(dataset.df@) && t.wf()),
            leaves@.len() > 0 ==> match r {
                Ok(t) => labels_ok(*dataset, groups_view(leaves@)) && t@ == output_spec(
                    *dataset,
                    groups_view(leaves@),
                ) && t.wf(),
                Err(e) => !labels_ok(*dataset, groups_view(leaves@)) && reports_first_failure(
                    *dataset,
                    groups_view(leaves@),
                    e,
                ),
            },
    {
        if leaves.len() == 0 {
            return Ok(Self::empty_df_like(&dataset.df));
        }
        let ghost gv = groups_view(leaves@);
        let labels = match compute_labels(dataset, leaves) {
            Ok(labels) => labels,
            Err(e) => {
                return Err(e);
            },
        };
        let n = dataset.df.height;
        let owners = row_owners(leaves, n);
        let ord = kept_row_list(&owners, Ghost(gv));
        let ghost out = output_spec(*dataset, gv);
        let total = ord.len();
        let nq = dataset.qis.0.len();
        let mut cols: Vec<Column> = Vec::new();
        let ncols = dataset.df.columns.len();
        for c in 0..ncols
            invariant
                ncols == dataset.df.columns@.len(),
                dataset.wf(),
                n == dataset.df.height,
                gv == groups_view(leaves@),
                out == output_spec(*dataset, gv),
                ord@ == kept_rows(gv, n as int),
                total == ord@.len(),
                nq == dataset.qis.0@.len(),
                owners@.len() == n,
                forall|r: int|
                    0 <= r < n ==> match #[trigger] owners@[r] {
                        Some(l) => covered(gv, r as usize) && l as int == owner(gv, r as usize) && l
                            < leaves@.len(),
                        None => !covered(gv, r as usize),
                    },
                labels@.len() == leaves@.len(),
                forall|l: int| 0 <= l < leaves@.len() ==> (#[trigger] labels@[l])@.len() == nq,
                forall|l: int, q: int|
                    0 <= l < leaves@.len() && 0 <= q < nq ==> (#[trigger] labels@[l]@[q])@ == label_of(
                        *dataset,
                        gv,
                        l,
                        q,
                    ),
                cols@.len() == c,
                forall|q: int| 0 <= q < c ==> (#[trigger] cols@[q]).name@ == out.columns[q].0,
                forall|q: int| 0 <= q < c ==> (#[trigger] cols@[q]).data@ == out.columns[q].1,
                forall|q: int| 0 <= q < c ==> crate::data::table::column_len((#[trigger] cols@[q]).data) == total,
        {
            let column = &dataset.df.columns[c];
            assert(dataset.df@.columns[c as int] == (column.name@, column.data@));
            assert(crate::data::table::column_len(dataset.df.columns@[c as int].data) == n);
            proof {
                assert forall|j: int| 0 <= j < total implies #[trigger] ord@[j] < n by {
                    let rr = row_range(n as int);
                    let p = |r: usize| covered(gv, r);
                    rr.lemma_filter_pred(p, j);
                    assert(rr.filter(p).contains(ord@[j]));
                    rr.lemma_filter_contains_rev(p, ord@[j]);
                }
            }
            let data = match find_qi_position(&dataset.qis.0, &column.name) {
                Some(q) => {
                    let mut vals: Vec<Option<String>> = Vec::new();
                    for j in 0..total
                        invariant
                            total == ord@.len(),
                            owners@.len() == n,
                            forall|j2: int| 0 <= j2 < total ==> #[trigger] ord@[j2] < n,
                            forall|r: int|
                                0 <= r < n ==> match #[trigger] owners@[r] {
                                    Some(l) => covered(gv, r as usize) && l as int == owner(gv, r as usize)
                                        && l < leaves@.len(),
                                    None => !covered(gv, r as usize),
                                },
                            forall|j2: int| 0 <= j2 < total ==> covered(gv, #[trigger] ord@[j2]),
                            q < nq,
                            labels@.len() == leaves@.len(),
                            forall|l: int| 0 <= l < leaves@.len() ==> (#[trigger] labels@[l])@.len() == nq,
                            forall|l: int, q2: int|
                                0 <= l < leaves@.len() && 0 <= q2 < nq ==> (#[trigger] labels@[l]@[q2])@
                                    == label_of(*dataset, gv, l, q2),
                            vals@.len() == j,
                            forall|j2: int|
                                0 <= j2 < j ==> opt_string_view(#[trigger] vals@[j2]) == Some(
                                    label_of(*dataset, gv, owner(gv, ord@[j2]), q as int),
                                ),
                    {
                        let r = ord[j];
                        match owners[r] {
                            Some(l) => {
                                vals.push(Some(labels[l][q].clone()));
                            },
                            None => {
                                assert(false);
                            },
                        }
                    }
                    assert(opt_strings_view(vals@) =~= ord@.map_values(
                        |r: usize| Some(label_of(*dataset, gv, owner(gv, r), q as int)),
                    ));
                    ColumnData::Str(vals)
                },
                None => {
                    match &column.data {
                        ColumnData::Int(v) => {
                            let mut vals: Vec<Option<i64>> = Vec::new();
                            for j in 0..total
                                invariant
                                    total == ord@.len(),
                                    v@.len() == n,
                                    forall|j2: int| 0 <= j2 < total ==> #[trigger] ord@[j2] < n,
                                    vals@.len() == j,
                                    forall|j2: int| 0 <= j2 < j ==> #[trigger] vals@[j2] == v@[ord@[j2] as int],
                            {
                                vals.push(v[ord[j]]);
                            }
                            assert(vals@ =~= ord@.map_values(|r: usize| v@[r as int]));
                            ColumnData::Int(vals)
                        },
                        ColumnData::Str(v) => {
                            let mut vals: Vec<Option<String>> = Vec::new();
                            for j in 0..total
                                invariant
                                    total == ord@.len(),
                                    v@.len() == n,
                                    forall|j2: int| 0 <= j2 < total ==> #[trigger] ord@[j2] < n,
                                    vals@.len() == j,
                                    forall|j2: int|
                                        0 <= j2 < j ==> opt_string_view(#[trigger] vals@[j2]) == opt_string_view(
                                            v@[ord@[j2] as int],
                                        ),
                            {
                                vals.push(clone_opt_string(&v[ord[j]]));
                            }
                            assert(opt_strings_view(vals@) =~= ord@.map_values(
                                |r: usize| opt_strings_view(v@)[r as int],
                            ));
                            ColumnData::Str(vals)
                        },
                    }
                },
            };
            cols.push(Column { name: column.name.clone(), data });
        }
        let t = Table { height: total, columns: cols };
        assert(t@.columns =~= out.columns);
        Ok(t)
    }
}


/// A member of a filtered list is a member of the list and meets the predicate.
pub proof fn lemma_filter_member<A>(s: Seq<A>, p: spec_fn(A) -> bool, x: A)
    requires
        s.filter(p).contains(x),
    ensures
        s.contains(x),
        p(x),
{
    s.lemma_filter_contains_rev(p, x);
    let i = choose|i: int| 0 <= i < s.filter(p).len() && s.filter(p)[i] == x;
    s.lemma_filter_pred(p, i);
}

/// Filtering keeps a list free of repeats.
pub proof fn lemma_filter_no_dup<A>(s: Seq<A>, p: spec_fn(A) -> bool)
    requires
        s.no_duplicates(),
    ensures
        s.filter(p).no_duplicates(),
    decreases s.len(),
{
    reveal(Seq::filter);
    if s.len() > 0 {
        let t = s.drop_last();
        assert(t.no_duplicates()) by {
            assert forall|i: int, j: int| 0 <= i < t.len() && 0 <= j < t.len() && i != j implies t[i] != t[j] by {
                assert(t[i] == s[i] && t[j] == s[j]);
            }
        }
        lemma_filter_no_dup(t, p);
        if p(s.last()) {
            let f = t.filter(p);
            assert(!f.contains(s.last())) by {
                if f.contains(s.last()) {
                    t.lemma_filter_contains_rev(p, s.last());
                    let i = choose|i: int| 0 <= i < t.len() && t[i] == s.last();
                    assert(s[i] == s[s.len() - 1]);
                }
            }
            assert(s.filter(p) == f.push(s.last()));
            assert forall|i: int, j: int|
                0 <= i < f.len() + 1 && 0 <= j < f.len() + 1 && i != j implies f.push(s.last())[i] != f.push(
                s.last(),
            )[j] by {
                if i < f.len() && j < f.len() {
                } else if i < f.len() {
                    assert(f.contains(f[i]));
                } else {
                    assert(f.contains(f[j]));
                }
            }
        }
    }
}

/// A cut takes its two sides from the rows, puts no row on both sides, and
/// repeats no row that the rows do not repeat.
pub proof fn lemma_split_shape(ds: Dataset, qi: QuasiIdentifier, rows: Seq<usize>)
    ensures
        split_spec(ds, qi, rows) matches Some((l, h)) ==> {
            &&& forall|x: usize| #[trigger] l.contains(x) ==> rows.contains(x) && !h.contains(x)
            &&& forall|x: usize| #[trigger] h.contains(x) ==> rows.contains(x)
            &&& rows.no_duplicates() ==> l.no_duplicates() && h.no_duplicates()
        },
{
    match first_column_from(ds.df.columns@, qi.column_name@, 0) {
        None => {},
        Some(c) => match (qi.qi_type, ds.df.columns@[c].data) {
            (QIType::Numerical { .. }, ColumnData::Int(v)) => {
                let vals = present_ints(v@, rows, rows.len() as int);
                if vals.len() > 0 {
                    let m = vals.sort()[(vals.len() - 1) / 2];
                    let p = |r: usize| at_most(v@, r, m);
                    let q = |r: usize| above(v@, r, m);
                    assert forall|x: usize| #[trigger] rows.filter(p).contains(x) implies rows.contains(x)
                        && !rows.filter(q).contains(x) by {
                        lemma_filter_member(rows, p, x);
                        if rows.filter(q).contains(x) {
                            lemma_filter_member(rows, q, x);
                        }
                    }
                    assert forall|x: usize| #[trigger] rows.filter(q).contains(x) implies rows.contains(x) by {
                        lemma_filter_member(rows, q, x);
                    }
                    if rows.no_duplicates() {
                        lemma_filter_no_dup(rows, p);
                        lemma_filter_no_dup(rows, q);
                    }
                }
            },
            (QIType::Categorical { .. }, ColumnData::Str(v)) => {
                let d = distinct_upto(v@, rows, rows.len() as int);
                let p = |r: usize| in_lower(v@, d, r);
                let q = |r: usize| in_upper(v@, d, r);
                assert forall|x: usize| #[trigger] rows.filter(p).contains(x) implies rows.contains(x)
                    && !rows.filter(q).contains(x) by {
                    lemma_filter_member(rows, p, x);
                    if rows.filter(q).contains(x) {
                        lemma_filter_member(rows, q, x);
                    }
                }
                assert forall|x: usize| #[trigger] rows.filter(q).contains(x) implies rows.contains(x) by {
                    lemma_filter_member(rows, q, x);
                }
                if rows.no_duplicates() {
                    lemma_filter_no_dup(rows, p);
                    lemma_filter_no_dup(rows, q);
                }
            },
            _ => {},
        },
    }
}


/// Every group Mondrian makes of `rows` holds at least `k` of them, none
/// twice, and no row is in two groups.
#[verifier::spinoff_prover]
#[verifier::rlimit(40)]
pub proof fn lemma_partition_groups(ds: Dataset, k: int, rows: Seq<usize>)
    requires
        rows.no_duplicates(),
    ensures
        forall|g: int|
            0 <= g < partition_spec(ds, k, rows).len() ==> (#[trigger] partition_spec(ds, k, rows)[g]).len() >= k
                && partition_spec(ds, k, rows)[g].no_duplicates(),
        forall|g: int, x: usize|
            0 <= g < partition_spec(ds, k, rows).len() && #[trigger] partition_spec(ds, k, rows)[g].contains(x)
                ==> rows.contains(x),
        forall|g1: int, g2: int, x: usize|
            0 <= g1 < partition_spec(ds, k, rows).len() && 0 <= g2 < partition_spec(ds, k, rows).len() && g1
                != g2 && #[trigger] partition_spec(ds, k, rows)[g1].contains(x) ==> !#[trigger] partition_spec(
                ds,
                k,
                rows,
            )[g2].contains(x),
    decreases rows.len(),
{
    let pp = partition_spec(ds, k, rows);
    if rows.len() >= k {
        match try_split_spec(ds, k, rows) {
            Some((l, h)) => {
                lemma_best_dim(ds, k, rows, ds.qis.0@.len() as int);
                let d = best_dim_upto(ds, k, rows, ds.qis.0@.len() as int)->0;
                lemma_split_sizes(ds, ds.qis.0@[d], rows);
                lemma_split_shape(ds, ds.qis.0@[d], rows);
                lemma_partition_groups(ds, k, l);
                lemma_partition_groups(ds, k, h);
                let pl = partition_spec(ds, k, l);
                let ph = partition_spec(ds, k, h);
                assert(pp == pl + ph);
                assert forall|g: int| 0 <= g < pp.len() implies (#[trigger] pp[g]).len() >= k
                    && pp[g].no_duplicates() by {
                    if g < pl.len() {
                        assert(pp[g] == pl[g]);
                    } else {
                        assert(pp[g] == ph[g - pl.len()]);
                    }
                }
                assert forall|g: int, x: usize| 0 <= g < pp.len() && #[trigger] pp[g].contains(x) implies rows.contains(
                    x,
                ) by {
                    if g < pl.len() {
                        assert(pp[g] == pl[g]);
                        assert(l.contains(x));
                    } else {
                        assert(pp[g] == ph[g - pl.len()]);
                        assert(h.contains(x));
                    }
                }
                assert forall|g1: int, g2: int, x: usize|
                    0 <= g1 < pp.len() && 0 <= g2 < pp.len() && g1 != g2 && #[trigger] pp[g1].contains(
                        x,
                    ) implies !#[trigger] pp[g2].contains(x) by {
                    if pp[g2].contains(x) {
                        if g1 < pl.len() {
                            assert(pp[g1] == pl[g1]);
                            if g2 < pl.len() {
                                assert(pp[g2] == pl[g2]);
                            } else {
                                assert(pp[g2] == ph[g2 - pl.len()]);
                                assert(l.contains(x) && h.contains(x));
                            }
                        } else {
                            assert(pp[g1] == ph[g1 - pl.len()]);
                            if g2 < pl.len() {
                                assert(pp[g2] == pl[g2]);
                                assert(l.contains(x) && h.contains(x));
                            } else {
                                assert(pp[g2] == ph[g2 - pl.len()]);
                            }
                        }
                    }
                }
            },
            None => {
                assert(pp == seq![rows]);
            },
        }
    }
}

/// Mondrian makes at least one group of `k` or more rows.
pub proof fn lemma_partition_nonempty(ds: Dataset, k: int, rows: Seq<usize>)
    requires
        rows.len() >= k,
    ensures
        partition_spec(ds, k, rows).len() >= 1,
    decreases rows.len(),
{
    match try_split_spec(ds, k, rows) {
        Some((l, h)) => {
            lemma_best_dim(ds, k, rows, ds.qis.0@.len() as int);
            let d = best_dim_upto(ds, k, rows, ds.qis.0@.len() as int)->0;
            lemma_split_sizes(ds, ds.qis.0@[d], rows);
            lemma_partition_nonempty(ds, k, l);
        },
        None => {},
    }
}


/// `qi_position` finds a quasi-identifier exactly when one at or after `i` is on column `name`.
pub proof fn lemma_qi_position(qis: Seq<QuasiIdentifier>, name: Seq<char>, i: int)
    requires
        0 <= i,
    ensures
        qi_position(qis, name, i) is Some <==> exists|q: int| i <= q < qis.len() && (#[trigger] qis[q]).column_name@ == name,
    decreases qis.len() - i,
{
    if i < qis.len() {
        lemma_qi_position(qis, name, i + 1);
        if qis[i].column_name@ != name {
            if exists|q: int| i <= q < qis.len() && (#[trigger] qis[q]).column_name@ == name {
                let q = choose|q: int| i <= q < qis.len() && (#[trigger] qis[q]).column_name@ == name;
                assert(i + 1 <= q);
            }
        }
    }
}

/// The rows `0..n` hold no repeats.
pub proof fn lemma_row_range_no_dup(n: int)
    requires
        0 <= n <= usize::MAX + 1,
    ensures
        row_range(n).no_duplicates(),
        forall|i: int| 0 <= i < n ==> #[trigger] row_range(n)[i] == i,
{
}

/// Every row of Mondrian's output shares its quasi-identifier cells with at
/// least `k` rows: the rows of its group, which all get the same labels.
pub proof fn lemma_output_k_anonymous(ds: Dataset, k: int)
    ensures
        is_k_anonymous(
            ds.qis.0@,
            output_spec(ds, partition_spec(ds, k, row_range(ds.df.height as int))),
            k,
        ),
{
    let n = ds.df.height as int;
    let qis = ds.qis.0@;
    let rr = row_range(n);
    let pp = partition_spec(ds, k, rr);
    lemma_row_range_no_dup(n);
    lemma_partition_groups(ds, k, rr);
    let cov = |r: usize| covered(pp, r);
    let ord = kept_rows(pp, n);
    assert(ord == rr.filter(cov));
    lemma_filter_no_dup(rr, cov);
    let out = output_spec(ds, pp);
    assert forall|j: int| 0 <= j < out.height implies #[trigger] equivalence_class(qis, out, j).len() >= k by {
        let r = ord[j];
        rr.lemma_filter_pred(cov, j);
        let g = owner(pp, r);
        let grp = pp[g];
        let sg = Set::new(|j2: int| 0 <= j2 < ord.len() && grp.contains(ord[j2]));
        let cls = equivalence_class(qis, out, j);
        assert forall|j2: int| sg.contains(j2) implies cls.contains(j2) by {
            let r2 = ord[j2];
            assert(covered(pp, r2));
            let g2 = owner(pp, r2);
            if g2 != g {
                assert(pp[g2].contains(r2) && pp[g].contains(r2));
            }
            assert forall|c: int|
                0 <= c < out.columns.len() && is_qi_column(qis, out.columns[c].0) implies #[trigger] same_cell(
                out.columns[c].1,
                j,
                j2,
            ) by {
                let name = ds.df@.columns[c].0;
                assert(out.columns[c].0 == name);
                lemma_qi_position(qis, name, 0);
            }
        }
        vstd::set_lib::lemma_int_range(0, out.height);
        assert(cls.subset_of(vstd::set_lib::set_int_range(0, out.height)));
        vstd::set_lib::lemma_len_subset(cls, vstd::set_lib::set_int_range(0, out.height));
        vstd::set_lib::lemma_len_subset(sg, cls);
        let f = |j2: int| ord[j2];
        assert(sg.map(f) =~= grp.to_set()) by {
            assert forall|x: usize| grp.to_set().contains(x) implies sg.map(f).contains(x) by {
                assert(grp.contains(x));
                assert(rr.contains(x));
                let i = choose|i: int| 0 <= i < rr.len() && rr[i] == x;
                assert(covered(pp, x));
                rr.lemma_filter_contains(cov, i);
                let j2 = choose|j2: int| 0 <= j2 < ord.len() && ord[j2] == x;
                assert(sg.contains(j2) && f(j2) == x);
            }
        }
        assert(vstd::relations::injective_on(f, sg));
        vstd::set_lib::lemma_map_size(sg, grp.to_set(), f);
        grp.unique_seq_to_set();
    }
}


/// The groups Mondrian makes of the whole table.
pub open spec fn mondrian_groups(ds: Dataset, k: int) -> Seq<Seq<usize>> {
    partition_spec(ds, k, row_range(ds.df.height as int))
}

impl AnonymizationAlgorithm for Mondrian {
    fn name(&self) -> (r: &str)
        ensures
            r@ == "Mondrian"@,
    {
        "Mondrian"
    }

    /// Anonymizes the dataset so that each group of rows sharing the same
    /// quasi-identifiers has at least `k` rows: fails when `k < 2` or the
    /// dataset has no row; an empty table when there are fewer than `k` rows; else the table of
    /// `output_spec` over Mondrian's groups, unless a group's label cannot be made.
    fn anonymize(&self, k: u32, dataset: Dataset, quasi_identifiers: QuasiIdentifiers) -> (r: Result<
        Dataset,
        AlgorithmError,
    >)
        ensures
            k < 2 ==> r == Err::<Dataset, AlgorithmError>(AlgorithmError::KTooSmall(k)),
            2 <= k && dataset.df.height == 0 ==> r == Err::<Dataset, AlgorithmError>(AlgorithmError::EmptyDataset),
            2 <= k && 0 < dataset.df.height < k ==> (r matches Ok(d) && d.df@ == empty_like(dataset.df@)
                && d.df.wf() && d.qis == quasi_identifiers && d.taxonomies == dataset.taxonomies),
            2 <= k <= dataset.df.height ==> match r {
                Ok(d) => labels_ok(dataset, mondrian_groups(dataset, k as int)) && d.df@ == output_spec(
                    dataset,
                    mondrian_groups(dataset, k as int),
                ) && d.df.wf() && d.qis == quasi_identifiers && d.taxonomies == dataset.taxonomies,
                Err(e) => !labels_ok(dataset, mondrian_groups(dataset, k as int)) && reports_first_failure(
                    dataset,
                    mondrian_groups(dataset, k as int),
                    e,
                ),
            },
            r matches Ok(d) ==> is_k_anonymous(dataset.qis.0@, d.df@, k as int),
    {
        if k < 2 {
            return Err(AlgorithmError::KTooSmall(k));
        }
        let kk = k as usize;
        let n = dataset.df.height;
        if n == 0 {
            return Err(AlgorithmError::EmptyDataset);
        }
        if kk > n {
            let empty = Self::empty_df_like(&dataset.df);
            return Ok(Dataset::from_anonymized(empty, quasi_identifiers, dataset.taxonomies));
        }
        let mut rows: Vec<usize> = Vec::new();
        for i in 0..n
            invariant
                rows@ == row_range(i as int),
        {
            rows.push(i);
            assert(rows@ =~= row_range(i as int + 1));
        }
        let ghost rr = rows@;
        assert(rr == row_range(n as int));
        let mut leaves: Vec<Vec<usize>> = Vec::new();
        Self::partition(kk, &dataset, rows, &mut leaves);
        proof {
            assert(groups_view(leaves@) =~= mondrian_groups(dataset, k as int));
            lemma_row_range_no_dup(n as int);
            lemma_partition_groups(dataset, k as int, rr);
            lemma_partition_nonempty(dataset, k as int, rr);
            lemma_output_k_anonymous(dataset, k as int);
            let gv = groups_view(leaves@);
            assert forall|l: int, i: int| 0 <= l < gv.len() && 0 <= i < gv[l].len() implies #[trigger] gv[l][i]
                < n by {
                assert(gv[l].contains(gv[l][i]));
                assert(rr.contains(gv[l][i]));
            }
        }
        let output = Self::build_output_df(&dataset, &leaves)?;
        Ok(Dataset::from_anonymized(output, quasi_identifiers, dataset.taxonomies))
    }
}

} // verus!
