//! How many rows a frequency set counts under each key, and how merging its
//! groups and generalizing them keep those counts.
use vstd::prelude::*;
use crate::algorithms::incognito::{
    att_position, find_key_from, gen_entries, gen_step, gen_times, group_sum, group_sum_upto, has_table, lemma_find_key_from,
    root_height, rollup_parent_spec, rollup_spec, rollup_upto, root_keys, sat_add, table_of, DimensionTables, FreqModel,
    GenKey,
};
use crate::data::qi::QuasiIdentifier;

verus! {

/// The rows that `es` counts under `key`.
pub open spec fn key_count(es: FreqModel, key: Seq<Option<GenKey>>) -> int
    decreases es.len(),
{
    if es.len() == 0 {
        0
    } else {
        key_count(es.drop_last(), key) + if es.last().0 == key {
            es.last().1
        } else {
            0
        }
    }
}

/// All the rows that `es` counts.
pub open spec fn total_count(es: FreqModel) -> int
    decreases es.len(),
{
    if es.len() == 0 {
        0
    } else {
        total_count(es.drop_last()) + es.last().1
    }
}

/// No count of `es` is negative.
pub open spec fn counts_nonneg(es: FreqModel) -> bool {
    forall|i: int| 0 <= i < es.len() ==> #[trigger] es[i].1 >= 0
}

/// Adding a group adds its count under its key.
pub proof fn lemma_count_push(s: FreqModel, x: (Seq<Option<GenKey>>, int), key: Seq<Option<GenKey>>)
    ensures
        key_count(s.push(x), key) == key_count(s, key) + if x.0 == key {
            x.1
        } else {
            0
        },
        total_count(s.push(x)) == total_count(s) + x.1,
{
    assert(s.push(x).drop_last() =~= s);
}

/// The counts of two lists one after the other add up.
pub proof fn lemma_count_concat(a: FreqModel, b: FreqModel, key: Seq<Option<GenKey>>)
    ensures
        key_count(a + b, key) == key_count(a, key) + key_count(b, key),
    decreases b.len(),
{
    if b.len() > 0 {
        lemma_count_concat(a, b.drop_last(), key);
        assert((a + b).drop_last() =~= a + b.drop_last());
        assert((a + b).last() == b.last());
    } else {
        assert(a + b =~= a);
    }
}

/// Changing the count of group `j` changes the counts by the difference.
pub proof fn lemma_count_update(s: FreqModel, j: int, c: int, key: Seq<Option<GenKey>>)
    requires
        0 <= j < s.len(),
    ensures
        key_count(s.update(j, (s[j].0, c)), key) == key_count(s, key) + if s[j].0 == key {
            c - s[j].1
        } else {
            0
        },
        total_count(s.update(j, (s[j].0, c))) == total_count(s) + c - s[j].1,
    decreases s.len(),
{
    let u = s.update(j, (s[j].0, c));
    if j == s.len() - 1 {
        assert(u.drop_last() =~= s.drop_last());
    } else {
        lemma_count_update(s.drop_last(), j, c, key);
        assert(u.drop_last() =~= s.drop_last().update(j, (s[j].0, c)));
    }
}

/// With no negative count, one group's count is at most the total.
pub proof fn lemma_count_bound(s: FreqModel, j: int)
    requires
        counts_nonneg(s),
        0 <= j < s.len(),
    ensures
        s[j].1 <= total_count(s),
        0 <= total_count(s),
    decreases s.len(),
{
    let d = s.drop_last();
    assert(counts_nonneg(d)) by {
        assert forall|i: int| 0 <= i < d.len() implies #[trigger] d[i].1 >= 0 by {
            assert(d[i] == s[i]);
        }
    }
    if j < s.len() - 1 {
        lemma_count_bound(d, j);
        assert(d[j] == s[j]);
    } else if d.len() > 0 {
        lemma_count_bound(d, 0);
    }
    assert(s.last().1 >= 0);
}

/// Merging the first `i` groups of `es` keeps their counts non-negative and
/// their total, and adds no count past `u64::MAX` when the total stays within it.
pub proof fn lemma_group_sum_total(es: FreqModel, i: int)
    requires
        counts_nonneg(es),
        0 <= i <= es.len(),
        total_count(es.take(i)) <= u64::MAX,
    ensures
        counts_nonneg(group_sum_upto(es, i)),
        total_count(group_sum_upto(es, i)) == total_count(es.take(i)),
    decreases i,
{
    if i > 0 {
        let e = es[i - 1];
        assert(es.take(i).drop_last() =~= es.take(i - 1));
        assert(es.take(i).last() == e);
        assert(e.1 >= 0);
        lemma_group_sum_total(es, i - 1);
        let g = group_sum_upto(es, i - 1);
        lemma_find_key_from(g, e.0, 0);
        match find_key_from(g, e.0, 0) {
            Some(j) => {
                lemma_count_bound(g, j);
                assert(sat_add(g[j].1, e.1) == g[j].1 + e.1);
                lemma_count_update(g, j, g[j].1 + e.1, e.0);
                assert(g[j].0 == e.0);
                let u = g.update(j, (e.0, g[j].1 + e.1));
                assert(counts_nonneg(u)) by {
                    assert forall|t: int| 0 <= t < u.len() implies #[trigger] u[t].1 >= 0 by {
                        if t != j {
                            assert(u[t] == g[t]);
                        }
                    }
                }
            },
            None => {
                lemma_count_push(g, e, e.0);
                let u = g.push(e);
                assert(counts_nonneg(u)) by {
                    assert forall|t: int| 0 <= t < u.len() implies #[trigger] u[t].1 >= 0 by {
                        if t < g.len() {
                            assert(u[t] == g[t]);
                        }
                    }
                }
            },
        }
    }
}

/// Merging the first `i` groups of `es` keeps the rows counted under every
/// key, when the total stays within `u64::MAX`.
pub proof fn lemma_group_sum_key(es: FreqModel, i: int, key: Seq<Option<GenKey>>)
    requires
        counts_nonneg(es),
        0 <= i <= es.len(),
        total_count(es.take(i)) <= u64::MAX,
    ensures
        key_count(group_sum_upto(es, i), key) == key_count(es.take(i), key),
    decreases i,
{
    if i > 0 {
        let e = es[i - 1];
        assert(es.take(i).drop_last() =~= es.take(i - 1));
        assert(es.take(i).last() == e);
        assert(e.1 >= 0);
        lemma_group_sum_total(es, i - 1);
        lemma_group_sum_key(es, i - 1, key);
        let g = group_sum_upto(es, i - 1);
        lemma_find_key_from(g, e.0, 0);
        match find_key_from(g, e.0, 0) {
            Some(j) => {
                lemma_count_bound(g, j);
                assert(sat_add(g[j].1, e.1) == g[j].1 + e.1);
                assert(g[j].0 == e.0);
                lemma_count_update(g, j, g[j].1 + e.1, key);
            },
            None => {
                lemma_count_push(g, e, key);
            },
        }
    }
}

/// The rows that generalizing the group `e` one step on the cell at `pos`
/// through `edges` counts under `key`.
pub open spec fn gen_share(
    e: (Seq<Option<GenKey>>, int),
    pos: int,
    edges: Seq<(GenKey, GenKey)>,
    key: Seq<Option<GenKey>>,
) -> int {
    let ts = gen_step(edges, e.0[pos]);
    key_count(Seq::new(ts.len(), |j: int| (e.0.update(pos, ts[j]), e.1)), key)
}

/// The rows that generalizing every group of `es` one step counts under `key`.
pub open spec fn gen_weight(es: FreqModel, pos: int, edges: Seq<(GenKey, GenKey)>, key: Seq<Option<GenKey>>) -> int
    decreases es.len(),
{
    if es.len() == 0 {
        0
    } else {
        gen_weight(es.drop_last(), pos, edges, key) + gen_share(es.last(), pos, edges, key)
    }
}

/// Generalizing every group one step counts, under each key, the shares of the groups.
pub proof fn lemma_gen_entries_count(es: FreqModel, pos: int, edges: Seq<(GenKey, GenKey)>, key: Seq<Option<GenKey>>)
    ensures
        key_count(gen_entries(es, pos, edges), key) == gen_weight(es, pos, edges, key),
    decreases es.len(),
{
    if es.len() > 0 {
        let e = es.last();
        let ts = gen_step(edges, e.0[pos]);
        lemma_gen_entries_count(es.drop_last(), pos, edges, key);
        lemma_count_concat(
            gen_entries(es.drop_last(), pos, edges),
            Seq::new(ts.len(), |j: int| (e.0.update(pos, ts[j]), e.1)),
            key,
        );
    }
}

/// A group's share is additive in its count.
pub proof fn lemma_share_linear(
    k: Seq<Option<GenKey>>,
    ts: Seq<Option<GenKey>>,
    pos: int,
    a: int,
    b: int,
    key: Seq<Option<GenKey>>,
    n: int,
)
    requires
        0 <= n <= ts.len(),
    ensures
        key_count(Seq::new(n as nat, |j: int| (k.update(pos, ts[j]), a + b)), key) == key_count(
            Seq::new(n as nat, |j: int| (k.update(pos, ts[j]), a)),
            key,
        ) + key_count(Seq::new(n as nat, |j: int| (k.update(pos, ts[j]), b)), key),
    decreases n,
{
    if n > 0 {
        lemma_share_linear(k, ts, pos, a, b, key, n - 1);
        assert(Seq::new(n as nat, |j: int| (k.update(pos, ts[j]), a + b)).drop_last() =~= Seq::new(
            (n - 1) as nat,
            |j: int| (k.update(pos, ts[j]), a + b),
        ));
        assert(Seq::new(n as nat, |j: int| (k.update(pos, ts[j]), a)).drop_last() =~= Seq::new(
            (n - 1) as nat,
            |j: int| (k.update(pos, ts[j]), a),
        ));
        assert(Seq::new(n as nat, |j: int| (k.update(pos, ts[j]), b)).drop_last() =~= Seq::new(
            (n - 1) as nat,
            |j: int| (k.update(pos, ts[j]), b),
        ));
    }
}

/// Changing the count of group `j` changes the weight by the difference of its shares.
pub proof fn lemma_weight_update(
    s: FreqModel,
    j: int,
    c: int,
    pos: int,
    edges: Seq<(GenKey, GenKey)>,
    key: Seq<Option<GenKey>>,
)
    requires
        0 <= j < s.len(),
    ensures
        gen_weight(s.update(j, (s[j].0, c)), pos, edges, key) == gen_weight(s, pos, edges, key) - gen_share(
            s[j],
            pos,
            edges,
            key,
        ) + gen_share((s[j].0, c), pos, edges, key),
    decreases s.len(),
{
    let u = s.update(j, (s[j].0, c));
    if j == s.len() - 1 {
        assert(u.drop_last() =~= s.drop_last());
    } else {
        lemma_weight_update(s.drop_last(), j, c, pos, edges, key);
        assert(u.drop_last() =~= s.drop_last().update(j, (s[j].0, c)));
    }
}

/// Merging the first `i` groups of `es` keeps their weight, when the total
/// stays within `u64::MAX`.
pub proof fn lemma_group_sum_weight(es: FreqModel, i: int, pos: int, edges: Seq<(GenKey, GenKey)>, key: Seq<Option<GenKey>>)
    requires
        counts_nonneg(es),
        0 <= i <= es.len(),
        total_count(es.take(i)) <= u64::MAX,
    ensures
        gen_weight(group_sum_upto(es, i), pos, edges, key) == gen_weight(es.take(i), pos, edges, key),
    decreases i,
{
    if i > 0 {
        let e = es[i - 1];
        assert(es.take(i).drop_last() =~= es.take(i - 1));
        assert(es.take(i).last() == e);
        assert(e.1 >= 0);
        lemma_group_sum_total(es, i - 1);
        lemma_group_sum_weight(es, i - 1, pos, edges, key);
        let g = group_sum_upto(es, i - 1);
        lemma_find_key_from(g, e.0, 0);
        match find_key_from(g, e.0, 0) {
            Some(j) => {
                lemma_count_bound(g, j);
                assert(sat_add(g[j].1, e.1) == g[j].1 + e.1);
                assert(g[j].0 == e.0);
                lemma_weight_update(g, j, g[j].1 + e.1, pos, edges, key);
                let ts = gen_step(edges, e.0[pos]);
                lemma_share_linear(e.0, ts, pos, g[j].1, e.1, key, ts.len() as int);
                assert(Seq::new(ts.len(), |t: int| (e.0.update(pos, ts[t]), g[j].1 + e.1)) =~= Seq::new(
                    ts.len() as nat,
                    |t: int| (e.0.update(pos, ts[t]), g[j].1 + e.1),
                ));
                assert(g[j] == (e.0, g[j].1));
            },
            None => {
                let u = g.push(e);
                assert(u.drop_last() =~= g);
            },
        }
    }
}

/// Merging the groups of a frequency set before generalizing it one step
/// counts as many rows under every key as generalizing it without merging
/// first, when the counts are not negative and every total stays within `u64::MAX`.
pub proof fn lemma_merge_then_generalize(es: FreqModel, pos: int, edges: Seq<(GenKey, GenKey)>, key: Seq<Option<GenKey>>)
    requires
        counts_nonneg(es),
        total_count(es) <= u64::MAX,
    ensures
        key_count(gen_entries(group_sum(es), pos, edges), key) == key_count(gen_entries(es, pos, edges), key),
{
    assert(es.take(es.len() as int) =~= es);
    lemma_group_sum_weight(es, es.len() as int, pos, edges, key);
    lemma_gen_entries_count(group_sum(es), pos, edges, key);
    lemma_gen_entries_count(es, pos, edges, key);
}

/// Generalizing keeps every count non-negative.
pub proof fn lemma_gen_entries_nonneg(es: FreqModel, pos: int, edges: Seq<(GenKey, GenKey)>)
    requires
        counts_nonneg(es),
    ensures
        counts_nonneg(gen_entries(es, pos, edges)),
    decreases es.len(),
{
    if es.len() > 0 {
        let d = es.drop_last();
        assert(counts_nonneg(d)) by {
            assert forall|i: int| 0 <= i < d.len() implies #[trigger] d[i].1 >= 0 by {
                assert(d[i] == es[i]);
            }
        }
        lemma_gen_entries_nonneg(d, pos, edges);
        let e = es.last();
        assert(e.1 >= 0);
        let ts = gen_step(edges, e.0[pos]);
        let a = gen_entries(d, pos, edges);
        let b = Seq::new(ts.len(), |j: int| (e.0.update(pos, ts[j]), e.1));
        assert forall|i: int| 0 <= i < (a + b).len() implies #[trigger] (a + b)[i].1 >= 0 by {
            if i < a.len() {
                assert((a + b)[i] == a[i]);
            } else {
                assert((a + b)[i] == b[i - a.len()]);
            }
        }
    }
}

/// Generalizing `n` times keeps every count non-negative.
pub proof fn lemma_gen_times_nonneg(es: FreqModel, pos: int, edges: Seq<(GenKey, GenKey)>, n: nat)
    requires
        counts_nonneg(es),
    ensures
        counts_nonneg(gen_times(es, pos, edges, n)),
    decreases n,
{
    if n > 0 {
        lemma_gen_times_nonneg(es, pos, edges, (n - 1) as nat);
        lemma_gen_entries_nonneg(gen_times(es, pos, edges, (n - 1) as nat), pos, edges);
    }
}

/// A node over one quasi-identifier `a`, rolled up one level from its
/// parent's frequency set (see `rollup_from_parent` and `rollup_parent_spec`),
/// counts under every key as many rows as when rolled up from the frequency
/// set at height zero (see `rollup` and `rollup_spec`), when no count is
/// negative and no total passes `u64::MAX`.
pub proof fn lemma_rollup_from_parent_counts(
    a: QuasiIdentifier,
    h: usize,
    rf: FreqModel,
    dims: DimensionTables,
    key: Seq<Option<GenKey>>,
)
    requires
        has_table(dims, a),
        h < usize::MAX,
        counts_nonneg(rf),
        total_count(gen_times(rf, 0, table_of(dims, a), h as nat)) <= u64::MAX,
        total_count(gen_times(rf, 0, table_of(dims, a), (h + 1) as nat)) <= u64::MAX,
        total_count(gen_entries(group_sum(gen_times(rf, 0, table_of(dims, a), h as nat)), 0, table_of(dims, a)))
            <= u64::MAX,
    ensures
        rollup_spec(seq![a], seq![(a, h)], rf, dims) matches Ok(pf) && rollup_parent_spec(seq![a], a, pf, dims) matches Ok(
            f1,
        ) && rollup_spec(seq![a], seq![(a, (h + 1) as usize)], rf, dims) matches Ok(f2) && key_count(f1, key)
            == key_count(f2, key),
{
    let qs = seq![a];
    let t = table_of(dims, a);
    let e = gen_times(rf, 0, t, h as nat);
    let p = seq![(a, h)];
    let c = seq![(a, (h + 1) as usize)];
    assert(root_keys(p) =~= qs);
    assert(root_keys(c) =~= qs);
    assert(att_position(qs, a.incognito_colname@, 0) == Some(0int));
    assert(root_height(p, a, 0) == Some(h as int));
    assert(root_height(c, a, 0) == Some(h + 1));
    assert(rollup_upto(qs, qs, p, rf, dims, 0) == Ok::<FreqModel, crate::algorithms::anonymization_algorithm::AlgorithmError>(rf));
    assert(rollup_upto(qs, qs, c, rf, dims, 0) == Ok::<FreqModel, crate::algorithms::anonymization_algorithm::AlgorithmError>(rf));
    assert(gen_times(rf, 0, t, 0) == rf);
    assert(rollup_upto(qs, qs, p, rf, dims, 1) == Ok::<FreqModel, crate::algorithms::anonymization_algorithm::AlgorithmError>(e));
    assert(gen_times(rf, 0, t, (h + 1) as nat) == gen_entries(e, 0, t));
    assert(rollup_upto(qs, qs, c, rf, dims, 1) == Ok::<FreqModel, crate::algorithms::anonymization_algorithm::AlgorithmError>(
        gen_entries(e, 0, t),
    ));
    lemma_gen_times_nonneg(rf, 0, t, h as nat);
    lemma_merge_then_generalize(e, 0, t, key);
    let g1 = gen_entries(group_sum(e), 0, t);
    let g2 = gen_entries(e, 0, t);
    assert(e.take(e.len() as int) =~= e);
    lemma_group_sum_total(e, e.len() as int);
    lemma_gen_entries_nonneg(group_sum(e), 0, t);
    lemma_gen_entries_nonneg(e, 0, t);
    assert(g1.take(g1.len() as int) =~= g1);
    assert(g2.take(g2.len() as int) =~= g2);
    lemma_group_sum_key(g1, g1.len() as int, key);
    lemma_group_sum_key(g2, g2.len() as int, key);
}

} // verus!
