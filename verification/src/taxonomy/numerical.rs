//! Numerical taxonomies: leaf intervals of a fixed width over a column's
//! range, merged group by group into coarser intervals up to a single root.
use vstd::prelude::*;
use crate::text::{
    clone_opt_string, clone_strings,
    int_decimal, nat_decimal, opt_string_view, push_decimal, push_decimal_i64, push_str_chars,
    string_from_chars, strings_view,
};

verus! {

/// One node of a numerical taxonomy: an inclusive interval of values.
pub struct NumericalNode {
    pub id: String,
    pub range: (i64, i64),
    pub level: usize,
    pub children: Vec<String>,
    pub parent: Option<String>,
}

/// The mathematical content of a numerical node.
pub ghost struct NumNodeModel {
    pub id: Seq<char>,
    pub range: (int, int),
    pub level: int,
    pub children: Seq<Seq<char>>,
    pub parent: Option<Seq<char>>,
}

impl View for NumericalNode {
    type V = NumNodeModel;

    open spec fn view(&self) -> NumNodeModel {
        NumNodeModel {
            id: self.id@,
            range: (self.range.0 as int, self.range.1 as int),
            level: self.level as int,
            children: strings_view(self.children@),
            parent: opt_string_view(self.parent),
        }
    }
}

impl Clone for NumericalNode {
    fn clone(&self) -> (r: Self)
        ensures
            r@ == self@,
    {
        NumericalNode {
            id: self.id.clone(),
            range: self.range,
            level: self.level,
            children: clone_strings(&self.children),
            parent: clone_opt_string(&self.parent),
        }
    }
}

/// The models of a list of numerical nodes.
pub open spec fn num_nodes_view(v: Seq<NumericalNode>) -> Seq<NumNodeModel> {
    v.map_values(|n: NumericalNode| n@)
}

/// A numerical taxonomy over the values of one column.
#[derive(Clone)]
pub struct NumericalTaxonomy {
    pub nodes: Vec<NumericalNode>,
    pub min_val: i64,
    pub max_val: i64,
    pub col_name: String,
}

/// The leaf intervals from `lo` up to `max`, each `b` values wide, the last one
/// cut at `max`.
pub open spec fn leaf_ranges(lo: int, max: int, b: int) -> Seq<(int, int)>
    decreases (if lo > max { 0 } else { max - lo + 1 }),
    when b >= 1
{
    if lo > max {
        Seq::empty()
    } else {
        let high = if lo + b - 1 <= max { lo + b - 1 } else { max };
        seq![(lo, high)] + leaf_ranges(lo + b, max, b)
    }
}

/// Number of groups of `g` consecutive items among `len` items.
pub open spec fn num_groups(len: int, g: int) -> int {
    if len % g == 0 {
        len / g
    } else {
        len / g + 1
    }
}

/// One past the last item of group `i`.
pub open spec fn chunk_end(len: int, g: int, i: int) -> int {
    if (i + 1) * g < len {
        (i + 1) * g
    } else {
        len
    }
}

/// Each group of `g` consecutive intervals merged into one interval.
pub open spec fn group_ranges(rs: Seq<(int, int)>, g: int) -> Seq<(int, int)> {
    Seq::new(
        num_groups(rs.len() as int, g) as nat,
        |i: int| (rs[i * g].0, rs[chunk_end(rs.len() as int, g, i) - 1].1),
    )
}

pub proof fn lemma_num_groups(len: int, g: int)
    requires
        len >= 1,
        g >= 2,
    ensures
        1 <= num_groups(len, g) <= len,
        len >= 2 ==> num_groups(len, g) < len,
        (num_groups(len, g) - 1) * g < len,
        len <= num_groups(len, g) * g,
{
    assert(len == (len / g) * g + len % g) by (nonlinear_arith)
        requires
            g >= 2,
    ;
    assert(0 <= len % g < g) by (nonlinear_arith)
        requires
            g >= 2,
    ;
    assert(len / g >= 0) by (nonlinear_arith)
        requires
            g >= 2,
            len >= 1,
    ;
    assert(len / g <= len / 2) by (nonlinear_arith)
        requires
            g >= 2,
            len >= 1,
    ;
    assert((len / g) * g <= len);
    if len % g == 0 {
        assert(len / g >= 1) by (nonlinear_arith)
            requires
                len == (len / g) * g,
                len >= 1,
                g >= 2,
        ;
    }
    assert(len / g * 2 <= (len / g) * g) by (nonlinear_arith)
        requires
            g >= 2,
            len / g >= 0,
    ;
    let q = len / g;
    let ng = num_groups(len, g);
    if len % g == 0 {
        assert((ng - 1) * g == q * g - g) by (nonlinear_arith)
            requires
                ng == q,
        ;
    } else {
        assert((ng - 1) * g == q * g) by (nonlinear_arith)
            requires
                ng == q + 1,
        ;
        assert(ng * g == q * g + g) by (nonlinear_arith)
            requires
                ng == q + 1,
        ;
    }
}

/// The layers of interval lists, from `rs` up, each merging the one below it,
/// until a layer with at most one interval.
pub open spec fn range_layers(rs: Seq<(int, int)>, g: int) -> Seq<Seq<(int, int)>>
    decreases rs.len(),
    when g >= 2
{
    if rs.len() <= 1 {
        seq![rs]
    } else {
        proof {
            lemma_num_groups(rs.len() as int, g);
        }
        seq![rs] + range_layers(group_ranges(rs, g), g)
    }
}

/// The id of the node for interval `r` at level `level`: `{col}_{level}_{low}-{high}`.
pub open spec fn num_id(col: Seq<char>, level: int, r: (int, int)) -> Seq<char> {
    col + seq!['_'] + nat_decimal(level as nat) + seq!['_'] + int_decimal(r.0) + seq!['-']
        + int_decimal(r.1)
}

/// Ids of the nodes of layer `k - 1` that group `i` of layer `k` merges.
pub open spec fn group_child_ids(col: Seq<char>, ls: Seq<Seq<(int, int)>>, g: int, k: int, i: int) -> Seq<
    Seq<char>,
> {
    Seq::new(
        (chunk_end(ls[k - 1].len() as int, g, i) - i * g) as nat,
        |c: int| num_id(col, k - 1, ls[k - 1][i * g + c]),
    )
}

/// Node `i` of layer `k` while layer `k` is the top one built so far.
pub open spec fn open_layer_node(col: Seq<char>, ls: Seq<Seq<(int, int)>>, g: int, k: int, i: int) -> NumNodeModel {
    NumNodeModel {
        id: num_id(col, k, ls[k][i]),
        range: ls[k][i],
        level: k,
        children: if k == 0 {
            Seq::empty()
        } else {
            group_child_ids(col, ls, g, k, i)
        },
        parent: None,
    }
}

/// Node `i` of layer `k` once the layer above it is built.
pub open spec fn closed_layer_node(col: Seq<char>, ls: Seq<Seq<(int, int)>>, g: int, k: int, i: int) -> NumNodeModel {
    NumNodeModel { parent: Some(num_id(col, k + 1, ls[k + 1][i / g])), ..open_layer_node(col, ls, g, k, i) }
}

/// The nodes of layers `0..k`, all with their parents set.
pub open spec fn closed_layers(col: Seq<char>, ls: Seq<Seq<(int, int)>>, g: int, k: int) -> Seq<NumNodeModel>
    decreases k,
{
    if k <= 0 {
        Seq::empty()
    } else {
        closed_layers(col, ls, g, k - 1) + Seq::new(
            ls[k - 1].len(),
            |i: int| closed_layer_node(col, ls, g, k - 1, i),
        )
    }
}

/// The nodes of layers `0..=k` with layer `k` the top one built so far.
pub open spec fn built_layers(col: Seq<char>, ls: Seq<Seq<(int, int)>>, g: int, k: int) -> Seq<NumNodeModel> {
    closed_layers(col, ls, g, k) + Seq::new(ls[k].len(), |i: int| open_layer_node(col, ls, g, k, i))
}

/// The nodes `create_from_data_range` builds: layer by layer from the leaves,
/// the single top node (the root) getting level one above its layer.
pub open spec fn numerical_nodes_spec(col: Seq<char>, min_val: int, max_val: int, b: int, g: int) -> Seq<NumNodeModel> {
    let ls = range_layers(leaf_ranges(min_val, max_val, b), g);
    let last = ls.len() - 1;
    let built = built_layers(col, ls, g, last);
    built.update(built.len() - 1, NumNodeModel { level: last + 1, ..built[built.len() - 1] })
}


/// The interval views of a list of `i64` pairs.
pub open spec fn ranges_view(v: Seq<(i64, i64)>) -> Seq<(int, int)> {
    v.map_values(|r: (i64, i64)| (r.0 as int, r.1 as int))
}

/// The leaf intervals from `min_val` to `max_val`, `b` values wide.
fn leaf_range_list(min_val: i64, max_val: i64, b: i64) -> (rs: Vec<(i64, i64)>)
    requires
        b >= 1,
    ensures
        ranges_view(rs@) == leaf_ranges(min_val as int, max_val as int, b as int),
        min_val <= max_val ==> rs@.len() >= 1,
{
    let mut rs: Vec<(i64, i64)> = Vec::new();
    if min_val > max_val {
        assert(ranges_view(rs@) =~= leaf_ranges(min_val as int, max_val as int, b as int));
        return rs;
    }
    let mut lo: i64 = min_val;
    loop
        invariant_except_break
            ranges_view(rs@) + leaf_ranges(lo as int, max_val as int, b as int) == leaf_ranges(
                min_val as int,
                max_val as int,
                b as int,
            ),
        invariant
            lo <= max_val,
            b >= 1,
        ensures
            ranges_view(rs@) == leaf_ranges(min_val as int, max_val as int, b as int),
            rs@.len() >= 1,
        decreases max_val - lo,
    {
        let top: i128 = lo as i128 + b as i128 - 1;
        let high: i64 = if top <= max_val as i128 {
            top as i64
        } else {
            max_val
        };
        let ghost before = ranges_view(rs@);
        rs.push((lo, high));
        assert(ranges_view(rs@) =~= before + seq![(lo as int, high as int)]);
        let next: i128 = lo as i128 + b as i128;
        assert(leaf_ranges(lo as int, max_val as int, b as int) == seq![(lo as int, high as int)]
            + leaf_ranges(next as int, max_val as int, b as int));
        if next > max_val as i128 {
            assert(leaf_ranges(next as int, max_val as int, b as int) =~= Seq::<(int, int)>::empty());
            assert(ranges_view(rs@) =~= before + leaf_ranges(lo as int, max_val as int, b as int));
            break;
        }
        assert(ranges_view(rs@) + leaf_ranges(next as int, max_val as int, b as int) =~= before
            + leaf_ranges(lo as int, max_val as int, b as int));
        lo = next as i64;
    }
    rs
}

/// The leaf node of column `col` for interval `r`.
pub open spec fn leaf_node(col: Seq<char>, r: (int, int)) -> NumNodeModel {
    NumNodeModel { id: num_id(col, 0, r), range: r, level: 0, children: Seq::empty(), parent: None }
}

/// The leaf nodes of column `col` for the intervals `rs`, in order.
pub open spec fn leaf_nodes(col: Seq<char>, rs: Seq<(int, int)>) -> Seq<NumNodeModel> {
    Seq::new(rs.len(), |i: int| leaf_node(col, rs[i]))
}

/// The ids of the leaf nodes of column `col` for the intervals `rs`, in order.
pub open spec fn leaf_ids(col: Seq<char>, rs: Seq<(int, int)>) -> Seq<Seq<char>> {
    Seq::new(rs.len(), |i: int| num_id(col, 0, rs[i]))
}

/// The interval of group `i` among the `n` nodes of `ns` from `start`: from
/// the low end of its first node to the high end of its last.
pub open spec fn group_range(ns: Seq<NumNodeModel>, start: int, n: int, g: int, i: int) -> (int, int) {
    (ns[start + i * g].range.0, ns[start + chunk_end(n, g, i) - 1].range.1)
}

/// The ids of the parents `create_parent_level` adds over the last `n` nodes of `ns`.
pub open spec fn parent_ids(col: Seq<char>, ns: Seq<NumNodeModel>, n: int, g: int, level: int) -> Seq<Seq<char>> {
    Seq::new(
        num_groups(n, g) as nat,
        |i: int| num_id(col, level, group_range(ns, ns.len() - n, n, g, i)),
    )
}

/// Node `start + q` of `ns` once its parent of `level` is known.
pub open spec fn adopted_node(col: Seq<char>, ns: Seq<NumNodeModel>, start: int, n: int, g: int, level: int, q: int) -> NumNodeModel {
    NumNodeModel { parent: Some(num_id(col, level, group_range(ns, start, n, g, q / g))), ..ns[start + q] }
}

/// The parent of group `i` among the `n` nodes of `ns` from `start`, whose ids are `cids`.
pub open spec fn group_parent(
    col: Seq<char>,
    ns: Seq<NumNodeModel>,
    cids: Seq<Seq<char>>,
    start: int,
    n: int,
    g: int,
    level: int,
    i: int,
) -> NumNodeModel {
    NumNodeModel {
        id: num_id(col, level, group_range(ns, start, n, g, i)),
        range: group_range(ns, start, n, g, i),
        level,
        children: cids.subrange(i * g, chunk_end(n, g, i)),
        parent: None,
    }
}

/// The nodes once a parent level is built over the last nodes of `ns`, whose
/// ids are `cids`: each group of `g` consecutive ones gets a parent at
/// `level` covering their intervals, appended after them, and each of them
/// gets that parent's id as its parent.
pub open spec fn parent_level(
    col: Seq<char>,
    ns: Seq<NumNodeModel>,
    cids: Seq<Seq<char>>,
    g: int,
    level: int,
) -> Seq<NumNodeModel> {
    let n = cids.len() as int;
    let start = ns.len() - n;
    ns.take(start) + Seq::new(n as nat, |q: int| adopted_node(col, ns, start, n, g, level, q)) + Seq::new(
        num_groups(n, g) as nat,
        |i: int| group_parent(col, ns, cids, start, n, g, level, i),
    )
}

pub proof fn lemma_parent_level_index(col: Seq<char>, ns: Seq<NumNodeModel>, cids: Seq<Seq<char>>, g: int, level: int)
    requires
        g >= 1,
        1 <= cids.len() <= ns.len(),
    ensures
        ({
            let n = cids.len() as int;
            let start = ns.len() - n;
            let pl = parent_level(col, ns, cids, g, level);
            &&& pl.len() == ns.len() + num_groups(n, g)
            &&& forall|m: int| 0 <= m < start ==> #[trigger] pl[m] == ns[m]
            &&& forall|q: int| 0 <= q < n ==> #[trigger] pl[start + q] == adopted_node(col, ns, start, n, g, level, q)
            &&& forall|i: int|
                0 <= i < num_groups(n, g) ==> #[trigger] pl[start + n + i] == group_parent(
                    col,
                    ns,
                    cids,
                    start,
                    n,
                    g,
                    level,
                    i,
                )
        }),
{
    let n = cids.len() as int;
    let start = ns.len() - n;
    lemma_num_groups_bounds(n, g);
    let a = ns.take(start);
    let b = Seq::new(n as nat, |q: int| adopted_node(col, ns, start, n, g, level, q));
    let c = Seq::new(num_groups(n, g) as nat, |i: int| group_parent(col, ns, cids, start, n, g, level, i));
    assert(parent_level(col, ns, cids, g, level) == a + b + c);
    assert forall|q: int| 0 <= q < n implies #[trigger] (a + b + c)[start + q] == adopted_node(
        col,
        ns,
        start,
        n,
        g,
        level,
        q,
    ) by {
        assert((a + b)[start + q] == b[q]);
    }
    assert forall|i: int| 0 <= i < num_groups(n, g) implies #[trigger] (a + b + c)[start + n + i] == group_parent(
        col,
        ns,
        cids,
        start,
        n,
        g,
        level,
        i,
    ) by {
        assert((a + b).len() == start + n);
    }
    assert forall|m: int| 0 <= m < start implies #[trigger] (a + b + c)[m] == ns[m] by {
        assert((a + b)[m] == a[m]);
    }
}

/// The ids of the nodes of layer `k`, in order.
pub open spec fn layer_ids(col: Seq<char>, ls: Seq<Seq<(int, int)>>, k: int) -> Seq<Seq<char>> {
    Seq::new(ls[k].len(), |i: int| num_id(col, k, ls[k][i]))
}

/// The bounds of `num_groups` for any group size of at least 1.
pub proof fn lemma_num_groups_bounds(len: int, g: int)
    requires
        len >= 1,
        g >= 1,
    ensures
        1 <= num_groups(len, g) <= len,
        (num_groups(len, g) - 1) * g < len,
        len <= num_groups(len, g) * g,
{
    if g == 1 {
        assert(len % 1 == 0 && len / 1 == len) by (nonlinear_arith);
    } else {
        lemma_num_groups(len, g);
    }
}

/// The number of groups is the one `n` with `(n - 1) * g < len <= n * g`.
pub proof fn lemma_num_groups_unique(len: int, g: int, n: int)
    requires
        len >= 1,
        g >= 1,
        n >= 1,
        (n - 1) * g < len,
        len <= n * g,
    ensures
        n == num_groups(len, g),
{
    lemma_num_groups_bounds(len, g);
    let m = num_groups(len, g);
    if n < m {
        assert(n * g <= (m - 1) * g) by (nonlinear_arith)
            requires
                n <= m - 1,
                g >= 1,
        ;
    }
    if n > m {
        assert(m * g <= (n - 1) * g) by (nonlinear_arith)
            requires
                m <= n - 1,
                g >= 1,
        ;
    }
}

/// The first and the last item of group `i` lie among the `len` items.
pub proof fn lemma_group_bounds(len: int, g: int, i: int)
    requires
        len >= 1,
        g >= 1,
        0 <= i < num_groups(len, g),
    ensures
        0 <= i * g < chunk_end(len, g, i) <= len,
{
    lemma_num_groups_bounds(len, g);
    assert(i * g <= (num_groups(len, g) - 1) * g) by (nonlinear_arith)
        requires
            i <= num_groups(len, g) - 1,
            g >= 1,
    ;
    assert(i * g >= 0) by (nonlinear_arith)
        requires
            i >= 0,
            g >= 1,
    ;
    assert((i + 1) * g == i * g + g) by (nonlinear_arith);
}

/// Each group of `g` consecutive intervals merged into one.
fn group_range_list(rs: &Vec<(i64, i64)>, g: usize) -> (out: Vec<(i64, i64)>)
    requires
        rs@.len() >= 1,
        g >= 1,
    ensures
        ranges_view(out@) == group_ranges(ranges_view(rs@), g as int),
{
    let ghost rv = ranges_view(rs@);
    let len = rs.len();
    let mut out: Vec<(i64, i64)> = Vec::new();
    let mut s: usize = 0;
    let mut i: usize = 0;
    loop
        invariant_except_break
            s as int == i as int * g as int,
            s < len,
        invariant
            len == rs@.len(),
            len >= 1,
            g >= 1,
            rv == ranges_view(rs@),
            out@.len() == i,
            forall|j: int|
                0 <= j < i ==> #[trigger] ranges_view(out@)[j] == (
                    rv[j * g].0,
                    rv[chunk_end(len as int, g as int, j) - 1].1,
                ),
        ensures
            ranges_view(out@) == group_ranges(rv, g as int),
        decreases len - s,
    {
        assert(i as int * g as int >= i as int) by (nonlinear_arith)
            requires
                g >= 1,
                i >= 0,
        ;
        let e: usize = if g < len - s {
            s + g
        } else {
            len
        };
        assert((i + 1) * g == i * g + g) by (nonlinear_arith);
        assert(e as int == chunk_end(len as int, g as int, i as int));
        let ghost before = out@;
        out.push((rs[s].0, rs[e - 1].1));
        assert(ranges_view(out@)[i as int] == (rv[i * g].0, rv[chunk_end(len as int, g as int, i as int) - 1].1));
        assert forall|j: int| 0 <= j < i + 1 implies #[trigger] ranges_view(out@)[j] == (
            rv[j * g].0,
            rv[chunk_end(len as int, g as int, j) - 1].1,
        ) by {
            if j < i {
                assert(ranges_view(out@)[j] == ranges_view(before)[j]);
            }
        }
        i += 1;
        if e == len {
            proof {
                lemma_num_groups_unique(len as int, g as int, i as int);
            }
            assert(ranges_view(out@) =~= group_ranges(rv, g as int));
            break;
        }
        s = e;
    }
    out
}

/// The id of the node for interval `r` at level `level`.
pub fn make_num_id(col_name: &str, level: usize, r: (i64, i64)) -> (id: String)
    ensures
        id@ == num_id(col_name@, level as int, (r.0 as int, r.1 as int)),
{
    let mut cs: Vec<char> = Vec::new();
    push_str_chars(&mut cs, col_name);
    cs.push('_');
    push_decimal(&mut cs, level as u64);
    cs.push('_');
    push_decimal_i64(&mut cs, r.0);
    cs.push('-');
    push_decimal_i64(&mut cs, r.1);
    let id = string_from_chars(&cs);
    assert(id@ =~= num_id(col_name@, level as int, (r.0 as int, r.1 as int)));
    id
}


pub proof fn lemma_range_layers_first(rs: Seq<(int, int)>, g: int)
    requires
        g >= 2,
    ensures
        range_layers(rs, g).len() >= 1,
        range_layers(rs, g)[0] == rs,
        rs.len() > 1 ==> range_layers(rs, g) == seq![rs] + range_layers(group_ranges(rs, g), g),
        rs.len() <= 1 ==> range_layers(rs, g) == seq![rs],
{
}

pub proof fn lemma_closed_layers_step(col: Seq<char>, ls: Seq<Seq<(int, int)>>, g: int, k: int)
    requires
        k >= 0,
    ensures
        closed_layers(col, ls, g, k + 1) == closed_layers(col, ls, g, k) + Seq::new(
            ls[k].len(),
            |i: int| closed_layer_node(col, ls, g, k, i),
        ),
        closed_layers(col, ls, g, k + 1).len() == closed_layers(col, ls, g, k).len() + ls[k].len(),
        forall|c: int|
            0 <= c < ls[k].len() ==> #[trigger] closed_layers(col, ls, g, k + 1)[closed_layers(
                col,
                ls,
                g,
                k,
            ).len() + c] == closed_layer_node(col, ls, g, k, c),
{
}

pub proof fn lemma_built_layers_index(col: Seq<char>, ls: Seq<Seq<(int, int)>>, g: int, k: int)
    ensures
        built_layers(col, ls, g, k).len() == closed_layers(col, ls, g, k).len() + ls[k].len(),
        forall|c: int|
            0 <= c < ls[k].len() ==> #[trigger] built_layers(col, ls, g, k)[closed_layers(
                col,
                ls,
                g,
                k,
            ).len() + c] == open_layer_node(col, ls, g, k, c),
        forall|m: int|
            0 <= m < closed_layers(col, ls, g, k).len() ==> #[trigger] built_layers(col, ls, g, k)[m]
                == closed_layers(col, ls, g, k)[m],
{
}

/// Ids for the intervals `rs` at level `level`.
fn make_num_ids(col_name: &str, level: usize, rs: &Vec<(i64, i64)>) -> (ids: Vec<String>)
    ensures
        ids@.len() == rs@.len(),
        forall|q: int|
            0 <= q < rs@.len() ==> #[trigger] ids@[q]@ == num_id(col_name@, level as int, ranges_view(rs@)[q]),
{
    let mut ids: Vec<String> = Vec::new();
    for j in 0..rs.len()
        invariant
            ids@.len() == j,
            forall|q: int|
                0 <= q < j ==> #[trigger] ids@[q]@ == num_id(col_name@, level as int, ranges_view(rs@)[q]),
    {
        let id = make_num_id(col_name, level, rs[j]);
        ids.push(id);
    }
    ids
}

/// Building the parent level over the top layer built so far gives the
/// layers up to the one above it.
#[verifier::spinoff_prover]
#[verifier::rlimit(40)]
pub proof fn lemma_parent_level_built(col: Seq<char>, ls: Seq<Seq<(int, int)>>, g: int, k: int)
    requires
        g >= 2,
        k >= 0,
        ls[k].len() >= 2,
        ls[k + 1] == group_ranges(ls[k], g),
    ensures
        parent_level(col, built_layers(col, ls, g, k), layer_ids(col, ls, k), g, k + 1) == built_layers(
            col,
            ls,
            g,
            k + 1,
        ),
        parent_ids(col, built_layers(col, ls, g, k), ls[k].len() as int, g, k + 1) == layer_ids(col, ls, k + 1),
{
    let b = built_layers(col, ls, g, k);
    let n = ls[k].len() as int;
    let start = closed_layers(col, ls, g, k).len() as int;
    let ng = num_groups(n, g);
    let cids = layer_ids(col, ls, k);
    lemma_num_groups(n, g);
    lemma_built_layers_index(col, ls, g, k);
    lemma_built_layers_index(col, ls, g, k + 1);
    lemma_closed_layers_step(col, ls, g, k);
    assert(b.len() == start + n);
    assert(ls[k + 1].len() == ng);
    assert forall|i: int| 0 <= i < ng implies #[trigger] group_range(b, start, n, g, i) == ls[k + 1][i] by {
        lemma_group_bounds(n, g, i);
        assert(b[start + i * g] == open_layer_node(col, ls, g, k, i * g));
        assert(b[start + (chunk_end(n, g, i) - 1)] == open_layer_node(col, ls, g, k, chunk_end(n, g, i) - 1));
    }
    let pl = parent_level(col, b, cids, g, k + 1);
    let bl = built_layers(col, ls, g, k + 1);
    let c1 = closed_layers(col, ls, g, k + 1);
    assert(pl.len() == bl.len());
    assert forall|m: int| 0 <= m < pl.len() implies #[trigger] pl[m] == bl[m] by {
        if m < start {
            assert(pl[m] == b[m]);
            assert(b[m] == closed_layers(col, ls, g, k)[m]);
            assert(bl[m] == c1[m]);
        } else if m < start + n {
            let q = m - start;
            assert(pl[m] == adopted_node(col, b, start, n, g, k + 1, q));
            assert(q / g < ng) by {
                assert((q / g) * g <= q) by (nonlinear_arith)
                    requires
                        g >= 2,
                        q >= 0,
                ;
                if q / g >= ng {
                    assert(ng * g <= (q / g) * g) by (nonlinear_arith)
                        requires
                            ng <= q / g,
                            g >= 2,
                    ;
                }
            }
            assert(q / g >= 0) by (nonlinear_arith)
                requires
                    q >= 0,
                    g >= 2,
            ;
            assert(b[start + q] == open_layer_node(col, ls, g, k, q));
            assert(bl[m] == c1[start + q]);
            assert(c1[start + q] == closed_layer_node(col, ls, g, k, q));
        } else {
            let i = m - start - n;
            assert(pl[m] == group_parent(col, b, cids, start, n, g, k + 1, i));
            assert(bl[c1.len() + i] == open_layer_node(col, ls, g, k + 1, i));
            lemma_group_bounds(n, g, i);
            assert(cids.subrange(i * g, chunk_end(n, g, i)) =~= group_child_ids(col, ls, g, k + 1, i));
        }
    }
    assert(pl =~= bl);
    assert(parent_ids(col, b, n, g, k + 1) =~= layer_ids(col, ls, k + 1));
}

/// The intervals of the nodes of `nodes` from `start`, in order.
fn node_ranges(nodes: &Vec<NumericalNode>, start: usize) -> (rs: Vec<(i64, i64)>)
    requires
        start <= nodes@.len(),
    ensures
        rs@.len() == nodes@.len() - start,
        forall|q: int| 0 <= q < rs@.len() ==> #[trigger] rs@[q] == nodes@[start + q].range,
{
    let mut rs: Vec<(i64, i64)> = Vec::new();
    let mut i: usize = start;
    while i < nodes.len()
        invariant
            start <= i <= nodes@.len(),
            rs@.len() == i - start,
            forall|q: int| 0 <= q < rs@.len() ==> #[trigger] rs@[q] == nodes@[start + q].range,
        decreases nodes@.len() - i,
    {
        rs.push(nodes[i].range);
        i += 1;
    }
    rs
}

/// A non-empty span of values has at least one leaf interval.
pub proof fn lemma_leaf_ranges_nonempty(lo: int, max: int, b: int)
    requires
        b >= 1,
        lo <= max,
    ensures
        leaf_ranges(lo, max, b).len() >= 1,
{
}

impl NumericalTaxonomy {
    /// Appends to `nodes` the leaves of column `name`: one node per interval
    /// of `bucket_size` values from `min_val` up to `max_val` (the last one cut
    /// at `max_val`; none when `min_val > max_val`), at level 0, without
    /// children or parent. Returns their ids, in order.
    pub fn create_leaf_level(
        nodes: &mut Vec<NumericalNode>,
        name: &str,
        min_val: i64,
        max_val: i64,
        bucket_size: i64,
    ) -> (ids: Vec<String>)
        requires
            bucket_size >= 1,
        ensures
            num_nodes_view(final(nodes)@) == num_nodes_view(old(nodes)@) + leaf_nodes(
                name@,
                leaf_ranges(min_val as int, max_val as int, bucket_size as int),
            ),
            strings_view(ids@) == leaf_ids(name@, leaf_ranges(min_val as int, max_val as int, bucket_size as int)),
    {
        let rs = leaf_range_list(min_val, max_val, bucket_size);
        let ghost rv = ranges_view(rs@);
        let ghost before = num_nodes_view(nodes@);
        let mut ids: Vec<String> = Vec::new();
        for i in 0..rs.len()
            invariant
                rv == ranges_view(rs@),
                num_nodes_view(nodes@) == before + leaf_nodes(name@, rv).take(i as int),
                strings_view(ids@) == leaf_ids(name@, rv).take(i as int),
        {
            let id = make_num_id(name, 0, rs[i]);
            let ghost pn = nodes@;
            let ghost pi = ids@;
            ids.push(id.clone());
            let node = NumericalNode { id, range: rs[i], level: 0, children: Vec::new(), parent: None };
            nodes.push(node);
            proof {
                assert(strings_view(Seq::<String>::empty()) =~= Seq::<Seq<char>>::empty());
                assert(node@ == leaf_node(name@, rv[i as int]));
                assert(num_nodes_view(nodes@) =~= num_nodes_view(pn).push(node@));
                assert(leaf_nodes(name@, rv).take(i as int + 1) =~= leaf_nodes(name@, rv).take(i as int).push(
                    leaf_node(name@, rv[i as int]),
                ));
                assert(strings_view(ids@) =~= strings_view(pi).push(id@));
                assert(leaf_ids(name@, rv).take(i as int + 1) =~= leaf_ids(name@, rv).take(i as int).push(
                    num_id(name@, 0, rv[i as int]),
                ));
            }
        }
        assert(leaf_nodes(name@, rv).take(rs@.len() as int) =~= leaf_nodes(name@, rv));
        assert(leaf_ids(name@, rv).take(rs@.len() as int) =~= leaf_ids(name@, rv));
        ids
    }

    /// Builds the level `level` above the last `child_ids.len()` nodes of
    /// `nodes`, whose ids are `child_ids`: each group of `group_size`
    /// consecutive ones gets a parent covering their intervals (from the low
    /// end of the first to the high end of the last), with the group's ids as
    /// children; the parents are appended in order and each child gets its
    /// parent's id. Returns the parents' ids, in order.
    pub fn create_parent_level(
        nodes: &mut Vec<NumericalNode>,
        name: &str,
        child_ids: &[String],
        group_size: usize,
        level: usize,
    ) -> (ids: Vec<String>)
        requires
            group_size >= 1,
            1 <= child_ids@.len() <= old(nodes)@.len(),
            forall|q: int|
                0 <= q < child_ids@.len() ==> (#[trigger] child_ids@[q])@ == old(nodes)@[old(nodes)@.len()
                    - child_ids@.len() + q].id@,
        ensures
            num_nodes_view(final(nodes)@) == parent_level(
                name@,
                num_nodes_view(old(nodes)@),
                strings_view(child_ids@),
                group_size as int,
                level as int,
            ),
            strings_view(ids@) == parent_ids(
                name@,
                num_nodes_view(old(nodes)@),
                child_ids@.len() as int,
                group_size as int,
                level as int,
            ),
    {
        let g = group_size;
        let n = child_ids.len();
        let start = nodes.len() - n;
        let ghost ns = num_nodes_view(nodes@);
        let ghost cids = strings_view(child_ids@);
        let rs = node_ranges(nodes, start);
        let parents = group_range_list(&rs, g);
        let pids = make_num_ids(name, level, &parents);
        proof {
            lemma_num_groups_bounds(n as int, g as int);
        }
        let ghost ng = num_groups(n as int, g as int);
        assert forall|i: int| 0 <= i < ng implies #[trigger] ranges_view(parents@)[i] == group_range(
            ns,
            start as int,
            n as int,
            g as int,
            i,
        ) by {
            lemma_group_bounds(n as int, g as int, i);
            assert(ranges_view(rs@)[i * g] == ns[start + i * g].range);
            assert(ranges_view(rs@)[chunk_end(n as int, g as int, i) - 1] == ns[start + chunk_end(
                n as int,
                g as int,
                i,
            ) - 1].range);
        }
        assert(ranges_view(rs@).len() == n);
        assert(ranges_view(parents@).len() == parents@.len());
        assert(pids@.len() == ng);
        assert forall|i: int| 0 <= i < ng implies #[trigger] pids@[i]@ == num_id(
            name@,
            level as int,
            group_range(ns, start as int, n as int, g as int, i),
        ) by {
            assert(ranges_view(parents@)[i] == group_range(ns, start as int, n as int, g as int, i));
        }
        let ghost target = parent_level(name@, ns, cids, g as int, level as int);
        proof {
            lemma_parent_level_index(name@, ns, cids, g as int, level as int);
        }
        let ghost before = nodes@;
        for q in 0..n
            invariant
                g >= 1,
                n == child_ids@.len(),
                start + n == before.len(),
                start + n <= usize::MAX,
                ns == num_nodes_view(before),
                pids@.len() == ng,
                ng == num_groups(n as int, g as int),
                (ng - 1) * g < n,
                n <= ng * g,
                forall|i: int| 0 <= i < ng ==> #[trigger] pids@[i]@ == num_id(
                    name@,
                    level as int,
                    group_range(ns, start as int, n as int, g as int, i),
                ),
                nodes@.len() == before.len(),
                forall|m: int| 0 <= m < start ==> #[trigger] nodes@[m] == before[m],
                forall|j: int|
                    0 <= j < q ==> #[trigger] nodes@[start + j]@ == adopted_node(
                        name@,
                        ns,
                        start as int,
                        n as int,
                        g as int,
                        level as int,
                        j,
                    ),
                forall|j: int| q <= j < n ==> #[trigger] nodes@[start + j] == before[start + j],
        {
            assert(nodes@[start + q as int] == before[start + q as int]);
            let pi = q / g;
            assert(pi < ng) by {
                assert(pi * g <= q) by (nonlinear_arith)
                    requires
                        pi == q / g,
                        g >= 1,
                ;
                if pi >= ng {
                    assert(ng * g <= pi * g) by (nonlinear_arith)
                        requires
                            ng <= pi,
                            g >= 1,
                    ;
                }
            }
            let old_node = &nodes[start + q];
            assert(num_nodes_view(before)[start + q as int] == before[start + q as int]@);
            let adopted = NumericalNode {
                id: old_node.id.clone(),
                range: old_node.range,
                level: old_node.level,
                children: clone_strings(&old_node.children),
                parent: Some(pids[pi].clone()),
            };
            nodes.set(start + q, adopted);
        }
        let ghost closed = nodes@;
        let mut i: usize = 0;
        let mut sj: usize = 0;
        while i < pids.len()
            invariant
                g >= 1,
                n == child_ids@.len(),
                cids == strings_view(child_ids@),
                start + n == before.len(),
                ns == num_nodes_view(before),
                target == parent_level(name@, ns, cids, g as int, level as int),
                pids@.len() == ng,
                parents@.len() == ng,
                ng == num_groups(n as int, g as int),
                (ng - 1) * g < n,
                n <= ng * g,
                0 <= i <= ng,
                i < ng ==> sj as int == i as int * g as int,
                i < ng ==> sj < n,
                forall|i2: int| 0 <= i2 < ng ==> #[trigger] pids@[i2]@ == num_id(
                    name@,
                    level as int,
                    group_range(ns, start as int, n as int, g as int, i2),
                ),
                forall|i2: int| 0 <= i2 < ng ==> #[trigger] ranges_view(parents@)[i2] == group_range(
                    ns,
                    start as int,
                    n as int,
                    g as int,
                    i2,
                ),
                nodes@.len() == start + n + i,
                forall|m: int| 0 <= m < start + n ==> #[trigger] nodes@[m] == closed[m],
                forall|i2: int|
                    0 <= i2 < i ==> #[trigger] nodes@[start + n + i2]@ == target[start + n + i2],
            decreases ng - i,
        {
            let e: usize = if g < n - sj {
                sj + g
            } else {
                n
            };
            assert((i + 1) * g == i * g + g) by (nonlinear_arith);
            assert(e as int == chunk_end(n as int, g as int, i as int));
            let mut children: Vec<String> = Vec::new();
            let mut c: usize = sj;
            while c < e
                invariant
                    sj <= c <= e,
                    e <= n,
                    n == child_ids@.len(),
                    children@.len() == c - sj,
                    forall|q: int| 0 <= q < c - sj ==> #[trigger] children@[q]@ == child_ids@[sj + q]@,
                decreases e - c,
            {
                children.push(child_ids[c].clone());
                c += 1;
            }
            let node = NumericalNode {
                id: pids[i].clone(),
                range: parents[i],
                level,
                children,
                parent: None,
            };
            proof {
                assert(sj as int == i as int * g as int);
                assert(c == e);
                assert(children@.len() == e - sj);
                assert(strings_view(children@).len() == e - sj);
                assert(cids.subrange(i * g, chunk_end(n as int, g as int, i as int)).len() == e - sj);
                assert forall|q: int| 0 <= q < e - sj implies #[trigger] strings_view(children@)[q] == cids.subrange(
                    i * g,
                    chunk_end(n as int, g as int, i as int),
                )[q] by {
                    assert(strings_view(children@)[q] == children@[q]@);
                    assert(cids[sj + q] == child_ids@[sj + q]@);
                }
                assert(strings_view(children@) =~= cids.subrange(i * g, chunk_end(n as int, g as int, i as int)));
                lemma_parent_level_index(name@, ns, cids, g as int, level as int);
                assert(ranges_view(parents@)[i as int] == (parents@[i as int].0 as int, parents@[i as int].1 as int));
                assert(target[start + n + i] == group_parent(
                    name@,
                    ns,
                    cids,
                    start as int,
                    n as int,
                    g as int,
                    level as int,
                    i as int,
                ));
                assert(node@ == target[start + n + i]);
            }
            nodes.push(node);
            i += 1;
            if i < pids.len() {
                assert(i * g < n) by {
                    assert(i * g <= (ng - 1) * g) by (nonlinear_arith)
                        requires
                            i <= ng - 1,
                            g >= 1,
                    ;
                }
                assert(e as int == i as int * g as int);
            }
            sj = e;
        }
        assert(num_nodes_view(nodes@) =~= target) by {
            assert forall|m: int| 0 <= m < target.len() implies #[trigger] num_nodes_view(nodes@)[m] == target[m] by {
                if m < start {
                    assert(nodes@[m] == closed[m]);
                    assert(closed[m] == before[m]);
                    assert(ns[m] == before[m]@);
                } else if m < start + n {
                    assert(nodes@[m] == closed[m]);
                    assert(closed[start + (m - start)]@ == adopted_node(
                        name@,
                        ns,
                        start as int,
                        n as int,
                        g as int,
                        level as int,
                        m - start,
                    ));
                } else {
                    assert(nodes@[start + n + (m - start - n)]@ == target[start + n + (m - start - n)]);
                }
            }
        }
        assert(strings_view(pids@) =~= parent_ids(name@, ns, n as int, g as int, level as int));
        pids
    }

    /// Builds the taxonomy of column `col_name` over `[min_val, max_val]`:
    /// leaves `leaf_bucket_size` values wide (the last cut at `max_val`), then
    /// layer by layer each `grouping_factor` consecutive nodes under one parent
    /// covering their union, until a single root remains. Nodes are stored
    /// layer by layer from the leaves; the root's level is one above its layer.
    pub fn create_from_data_range(
        col_name: &str,
        min_val: i64,
        max_val: i64,
        leaf_bucket_size: i64,
        grouping_factor: usize,
    ) -> (t: Self)
        requires
            min_val <= max_val,
            leaf_bucket_size >= 1,
            grouping_factor >= 2,
        ensures
            num_nodes_view(t.nodes@) == numerical_nodes_spec(
                col_name@,
                min_val as int,
                max_val as int,
                leaf_bucket_size as int,
                grouping_factor as int,
            ),
            t.min_val == min_val,
            t.max_val == max_val,
            t.col_name@ == col_name@,
    {
        let g = grouping_factor;
        let ghost col = col_name@;
        let mut nodes: Vec<NumericalNode> = Vec::new();
        let mut cur_ids = Self::create_leaf_level(&mut nodes, col_name, min_val, max_val, leaf_bucket_size);
        let ghost lv = leaf_ranges(min_val as int, max_val as int, leaf_bucket_size as int);
        assert(num_nodes_view(nodes@) =~= leaf_nodes(col, lv));
        proof {
            lemma_leaf_ranges_nonempty(min_val as int, max_val as int, leaf_bucket_size as int);
        }
        let ghost ls = range_layers(lv, g as int);
        proof {
            lemma_range_layers_first(lv, g as int);
            lemma_built_layers_index(col, ls, g as int, 0);
            assert forall|q: int| 0 <= q < lv.len() implies #[trigger] num_nodes_view(nodes@)[q] == built_layers(
                col,
                ls,
                g as int,
                0,
            )[q] by {
                assert(closed_layers(col, ls, g as int, 0).len() == 0);
                assert(built_layers(col, ls, g as int, 0)[0 + q] == open_layer_node(col, ls, g as int, 0, q));
            }
        }
        assert(num_nodes_view(nodes@) =~= built_layers(col, ls, g as int, 0));
        assert(strings_view(cur_ids@) =~= layer_ids(col, ls, 0));
        let mut level: usize = 0;
        let ghost mut start: int = 0;
        let ghost mut done: Seq<Seq<(int, int)>> = Seq::empty();
        let ghost mut cur_rs: Seq<(int, int)> = lv;
        while cur_ids.len() > 1
            invariant
                col == col_name@,
                ls == range_layers(lv, g as int),
                g >= 2,
                cur_rs.len() >= 1,
                cur_rs.len() == cur_ids@.len(),
                ls == done + range_layers(cur_rs, g as int),
                done.len() == level,
                start >= level,
                num_nodes_view(nodes@) == built_layers(col, ls, g as int, level as int),
                strings_view(cur_ids@) == layer_ids(col, ls, level as int),
                start == closed_layers(col, ls, g as int, level as int).len(),
                nodes@.len() == start + cur_rs.len(),
            decreases cur_rs.len(),
        {
            let k = level;
            let n = cur_ids.len();
            let total = nodes.len();
            assert(k + 1 < total);
            proof {
                lemma_range_layers_first(cur_rs, g as int);
                assert(ls[k as int] == cur_rs);
                lemma_range_layers_first(group_ranges(cur_rs, g as int), g as int);
                assert(ls[k + 1] == group_ranges(cur_rs, g as int));
                lemma_num_groups(n as int, g as int);
                lemma_built_layers_index(col, ls, g as int, k as int);
                assert forall|q: int| 0 <= q < n implies (#[trigger] cur_ids@[q])@ == nodes@[nodes@.len() - n + q].id@ by {
                    assert(strings_view(cur_ids@)[q] == cur_ids@[q]@);
                    assert(num_nodes_view(nodes@)[start + q] == nodes@[start + q]@);
                }
            }
            let pids = Self::create_parent_level(&mut nodes, col_name, cur_ids.as_slice(), g, k + 1);
            proof {
                lemma_parent_level_built(col, ls, g as int, k as int);
                lemma_closed_layers_step(col, ls, g as int, k as int);
                assert(strings_view(pids@).len() == pids@.len());
                done = done.push(cur_rs);
                cur_rs = group_ranges(cur_rs, g as int);
                assert(ls =~= done + range_layers(cur_rs, g as int));
                start = start + n;
                lemma_built_layers_index(col, ls, g as int, k + 1);
            }
            level = k + 1;
            cur_ids = pids;
        }
        proof {
            lemma_range_layers_first(cur_rs, g as int);
            lemma_built_layers_index(col, ls, g as int, level as int);
        }
        assert(ls.len() == level + 1);
        let last = nodes.len() - 1;
        let old_root = &nodes[last];
        let root = NumericalNode {
            id: old_root.id.clone(),
            range: old_root.range,
            level: level + 1,
            children: clone_strings(&old_root.children),
            parent: clone_opt_string(&old_root.parent),
        };
        let ghost built = num_nodes_view(nodes@);
        nodes.set(last, root);
        assert(num_nodes_view(nodes@) =~= numerical_nodes_spec(
            col,
            min_val as int,
            max_val as int,
            leaf_bucket_size as int,
            g as int,
        ));
        NumericalTaxonomy { nodes, min_val, max_val, col_name: col_name.to_owned() }
    }
}

/// Leaf `i` of `leaf_ranges(lo, max, b)` starts `i` buckets after `lo` and
/// ends a bucket later or at `max`; the leaves reach past `max` only by their end.
pub proof fn lemma_leaf_ranges_shape(lo: int, max: int, b: int)
    requires
        b >= 1,
    ensures
        forall|i: int|
            0 <= i < leaf_ranges(lo, max, b).len() ==> {
                &&& (#[trigger] leaf_ranges(lo, max, b)[i]).0 == lo + i * b
                &&& leaf_ranges(lo, max, b)[i].1 == if lo + i * b + b - 1 <= max {
                    lo + i * b + b - 1
                } else {
                    max
                }
                &&& lo + i * b <= max
            },
        lo <= max ==> max < lo + leaf_ranges(lo, max, b).len() * b,
    decreases (if lo > max { 0 } else { max - lo + 1 }),
{
    if lo <= max {
        lemma_leaf_ranges_shape(lo + b, max, b);
        let rest = leaf_ranges(lo + b, max, b);
        let l = leaf_ranges(lo, max, b);
        assert forall|i: int| 0 <= i < l.len() implies {
            &&& (#[trigger] l[i]).0 == lo + i * b
            &&& l[i].1 == if lo + i * b + b - 1 <= max {
                lo + i * b + b - 1
            } else {
                max
            }
            &&& lo + i * b <= max
        } by {
            if i > 0 {
                assert(l[i] == rest[i - 1]);
                assert(lo + b + (i - 1) * b == lo + i * b) by (nonlinear_arith);
            }
        }
        if lo + b <= max {
            assert(lo + b + rest.len() * b == lo + l.len() * b) by (nonlinear_arith)
                requires
                    l.len() == rest.len() + 1,
            ;
        } else {
            assert(rest.len() == 0);
            assert(l.len() == 1);
            assert(l.len() * b == b) by (nonlinear_arith)
                requires
                    l.len() == 1,
            ;
        }
    }
}

/// Value `v` lies in interval `i` of `l`.
pub open spec fn in_leaf(l: Seq<(int, int)>, i: int, v: int) -> bool {
    l[i].0 <= v <= l[i].1
}

/// Value `v` lies in some interval of `l`.
pub open spec fn value_covered(l: Seq<(int, int)>, v: int) -> bool {
    exists|i: int| 0 <= i < l.len() && #[trigger] in_leaf(l, i, v)
}

/// The leaves of a numerical taxonomy: the first nodes `create_from_data_range`
/// builds are the leaf intervals, without children; every value of the range
/// lies in exactly one of them, and each spans at most `b` values.
pub proof fn lemma_numerical_leaves(col: Seq<char>, min_val: int, max_val: int, b: int, g: int)
    requires
        min_val <= max_val,
        b >= 1,
        g >= 2,
    ensures
        ({
            let ns = numerical_nodes_spec(col, min_val, max_val, b, g);
            let l = leaf_ranges(min_val, max_val, b);
            &&& 1 <= l.len() <= ns.len()
            &&& forall|i: int|
                0 <= i < l.len() ==> (#[trigger] ns[i]).range == l[i] && ns[i].children.len() == 0 && l[i].0 <= l[i].1
                    && l[i].1 - l[i].0 < b
            &&& forall|v: int| min_val <= v <= max_val ==> #[trigger] value_covered(l, v)
            &&& forall|v: int, i: int, j: int|
                0 <= i < j < l.len() && #[trigger] in_leaf(l, i, v) ==> !#[trigger] in_leaf(l, j, v)
        }),
{
    let l = leaf_ranges(min_val, max_val, b);
    lemma_leaf_ranges_shape(min_val, max_val, b);
    lemma_leaf_ranges_nonempty(min_val, max_val, b);
    let ls = range_layers(l, g);
    lemma_range_layers_first(l, g);
    let last = ls.len() - 1;
    lemma_closed_layers_prefix(col, ls, g, last);
    lemma_built_layers_index(col, ls, g, last);
    let built = built_layers(col, ls, g, last);
    let ns = numerical_nodes_spec(col, min_val, max_val, b, g);
    assert(ns.len() == built.len());
    assert forall|i: int| 0 <= i < l.len() implies (#[trigger] ns[i]).range == l[i] && ns[i].children.len() == 0 && l[i].0
        <= l[i].1 && l[i].1 - l[i].0 < b by {
        if last == 0 {
            assert(built[0 + i] == open_layer_node(col, ls, g, 0, i));
        } else {
            assert(built[i] == closed_layers(col, ls, g, last)[i]);
        }
        assert(ns[i].range == built[i].range && ns[i].children == built[i].children);
    }
    assert forall|v: int| min_val <= v <= max_val implies #[trigger] value_covered(l, v) by {
        let i = (v - min_val) / b;
        assert(i * b <= v - min_val < i * b + b && i >= 0) by (nonlinear_arith)
            requires
                b >= 1,
                v - min_val >= 0,
                i == (v - min_val) / b,
        ;
        if i >= l.len() {
            assert(l.len() * b <= i * b) by (nonlinear_arith)
                requires
                    l.len() <= i,
                    b >= 1,
            ;
        }
        assert(in_leaf(l, i, v));
    }
    assert forall|v: int, i: int, j: int| 0 <= i < j < l.len() && #[trigger] in_leaf(l, i, v) implies !#[trigger] in_leaf(
        l,
        j,
        v,
    ) by {
        assert(i * b + b <= j * b) by (nonlinear_arith)
            requires
                i + 1 <= j,
                b >= 1,
        ;
    }
}

/// The first nodes of the closed layers are the closed leaves.
pub proof fn lemma_closed_layers_prefix(col: Seq<char>, ls: Seq<Seq<(int, int)>>, g: int, k: int)
    requires
        k >= 0,
    ensures
        k >= 1 ==> closed_layers(col, ls, g, k).len() >= ls[0].len(),
        k >= 1 ==> forall|i: int| 0 <= i < ls[0].len() ==> #[trigger] closed_layers(col, ls, g, k)[i] == closed_layer_node(col, ls, g, 0, i),
    decreases k,
{
    if k >= 1 {
        lemma_closed_layers_prefix(col, ls, g, k - 1);
        lemma_closed_layers_step(col, ls, g, k - 1);
        if k == 1 {
            assert(closed_layers(col, ls, g, 0).len() == 0);
            assert forall|i: int| 0 <= i < ls[0].len() implies #[trigger] closed_layers(col, ls, g, k)[i] == closed_layer_node(
                col,
                ls,
                g,
                0,
                i,
            ) by {
                assert(closed_layers(col, ls, g, 1)[0 + i] == closed_layer_node(col, ls, g, 0, i));
            }
        } else {
            assert forall|i: int| 0 <= i < ls[0].len() implies #[trigger] closed_layers(col, ls, g, k)[i] == closed_layer_node(
                col,
                ls,
                g,
                0,
                i,
            ) by {
                assert(closed_layers(col, ls, g, k)[i] == closed_layers(col, ls, g, k - 1)[i]);
            }
        }
    }
}


/// Piece `a` of `rs` is not empty.
pub open spec fn piece_ok(rs: Seq<(int, int)>, a: int) -> bool {
    rs[a].0 <= rs[a].1
}

/// Piece `a + 1` of `rs` starts right after piece `a` ends.
pub open spec fn adjacent(rs: Seq<(int, int)>, a: int) -> bool {
    rs[a].1 + 1 == rs[a + 1].0
}

/// The intervals `rs` cut `lo..=hi` into consecutive non-empty pieces, in order.
pub open spec fn partitions(rs: Seq<(int, int)>, lo: int, hi: int) -> bool {
    &&& rs.len() >= 1
    &&& rs[0].0 == lo
    &&& rs[rs.len() - 1].1 == hi
    &&& forall|a: int| 0 <= a < rs.len() ==> #[trigger] piece_ok(rs, a)
    &&& forall|a: int| 0 <= a < rs.len() - 1 ==> #[trigger] adjacent(rs, a)
}

/// In such a cut, a later piece starts and ends no earlier than an earlier one.
pub proof fn lemma_partition_order(rs: Seq<(int, int)>, lo: int, hi: int, a: int, c: int)
    requires
        partitions(rs, lo, hi),
        0 <= a <= c < rs.len(),
    ensures
        rs[a].0 <= rs[c].0,
        rs[a].1 <= rs[c].1,
    decreases c - a,
{
    if a < c {
        lemma_partition_order(rs, lo, hi, a, c - 1);
        assert(adjacent(rs, c - 1));
        assert(piece_ok(rs, c));
        assert(piece_ok(rs, c - 1));
    }
}

/// The leaf intervals cut the whole range.
pub proof fn lemma_leaf_partition(lo: int, max: int, b: int)
    requires
        lo <= max,
        b >= 1,
    ensures
        partitions(leaf_ranges(lo, max, b), lo, max),
{
    let l = leaf_ranges(lo, max, b);
    lemma_leaf_ranges_shape(lo, max, b);
    lemma_leaf_ranges_nonempty(lo, max, b);
    assert(l[0].0 == lo + 0 * b);
    assert forall|a: int| 0 <= a < l.len() - 1 implies #[trigger] adjacent(l, a) by {
        assert((a + 1) * b == a * b + b) by (nonlinear_arith);
        assert(l[a + 1].0 == lo + (a + 1) * b);
    }
    assert forall|a: int| 0 <= a < l.len() implies #[trigger] piece_ok(l, a) by {
        assert(l[a].0 == lo + a * b);
    }
    let n = l.len() - 1;
    assert((n + 1) * b == n * b + b) by (nonlinear_arith);
    assert(l[n].1 == max);
}

/// Group `i` of a cut is a non-empty interval of one to `g` pieces.
pub proof fn lemma_group_piece(rs: Seq<(int, int)>, g: int, lo: int, hi: int, i: int)
    requires
        partitions(rs, lo, hi),
        rs.len() >= 2,
        g >= 2,
        0 <= i < num_groups(rs.len() as int, g),
    ensures
        piece_ok(group_ranges(rs, g), i),
        1 <= chunk_end(rs.len() as int, g, i) - i * g <= g,
{
    let n = rs.len() as int;
    lemma_group_bounds(n, g, i);
    lemma_partition_order(rs, lo, hi, i * g, chunk_end(n, g, i) - 1);
    assert(piece_ok(rs, chunk_end(n, g, i) - 1));
    assert((i + 1) * g == i * g + g) by (nonlinear_arith);
}

/// Group `i + 1` of a cut starts right after group `i` ends.
pub proof fn lemma_group_adjacent(rs: Seq<(int, int)>, g: int, lo: int, hi: int, i: int)
    requires
        partitions(rs, lo, hi),
        rs.len() >= 2,
        g >= 2,
        0 <= i < num_groups(rs.len() as int, g) - 1,
    ensures
        adjacent(group_ranges(rs, g), i),
{
    let n = rs.len() as int;
    let ng = num_groups(n, g);
    lemma_num_groups(n, g);
    lemma_group_bounds(n, g, i);
    assert((i + 1) * g <= (ng - 1) * g) by (nonlinear_arith)
        requires
            i + 1 <= ng - 1,
            g >= 2,
    ;
    assert(chunk_end(n, g, i) == (i + 1) * g);
    assert(adjacent(rs, (i + 1) * g - 1));
}

/// Piece `c` of a cut lies inside group `c / g`.
pub proof fn lemma_group_member(rs: Seq<(int, int)>, g: int, lo: int, hi: int, c: int)
    requires
        partitions(rs, lo, hi),
        rs.len() >= 2,
        g >= 2,
        0 <= c < rs.len(),
    ensures
        c / g < group_ranges(rs, g).len(),
        group_ranges(rs, g)[c / g].0 <= rs[c].0,
        rs[c].1 <= group_ranges(rs, g)[c / g].1,
{
    let n = rs.len() as int;
    let ng = num_groups(n, g);
    lemma_num_groups(n, g);
    let i = c / g;
    assert(i * g <= c < i * g + g && i >= 0) by (nonlinear_arith)
        requires
            g >= 2,
            c >= 0,
            i == c / g,
    ;
    if i >= ng {
        assert(ng * g <= i * g) by (nonlinear_arith)
            requires
                ng <= i,
                g >= 2,
        ;
    }
    assert((i + 1) * g == i * g + g) by (nonlinear_arith);
    lemma_group_bounds(n, g, i);
    assert(c < chunk_end(n, g, i));
    lemma_partition_order(rs, lo, hi, i * g, c);
    lemma_partition_order(rs, lo, hi, c, chunk_end(n, g, i) - 1);
}

/// Grouping the pieces of a cut by `g` gives a cut of the same range, with
/// fewer pieces.
#[verifier::spinoff_prover]
pub proof fn lemma_group_partition(rs: Seq<(int, int)>, g: int, lo: int, hi: int)
    requires
        partitions(rs, lo, hi),
        rs.len() >= 2,
        g >= 2,
    ensures
        partitions(group_ranges(rs, g), lo, hi),
        group_ranges(rs, g).len() < rs.len(),
{
    let n = rs.len() as int;
    let gr = group_ranges(rs, g);
    let ng = num_groups(n, g);
    lemma_num_groups(n, g);
    assert forall|i: int| 0 <= i < gr.len() implies #[trigger] piece_ok(gr, i) by {
        lemma_group_piece(rs, g, lo, hi, i);
    }
    assert forall|i: int| 0 <= i < gr.len() - 1 implies #[trigger] adjacent(gr, i) by {
        lemma_group_adjacent(rs, g, lo, hi, i);
    }
    assert(gr[0].0 == rs[0 * g].0);
    assert(ng * g == (ng - 1) * g + g) by (nonlinear_arith);
    assert(chunk_end(n, g, ng - 1) == n);
}

/// Layer `k + 1` of `ls` groups layer `k`, which has at least two pieces, by `g`.
pub open spec fn grouped_step(ls: Seq<Seq<(int, int)>>, g: int, k: int) -> bool {
    ls[k].len() >= 2 && ls[k + 1] == group_ranges(ls[k], g)
}

/// The layers built from a cut are cuts of the same range, each the grouping
/// of the one below it, up to a single piece.
#[verifier::spinoff_prover]
pub proof fn lemma_layers_partition(rs: Seq<(int, int)>, g: int, lo: int, hi: int)
    requires
        partitions(rs, lo, hi),
        g >= 2,
    ensures
        ({
            let ls = range_layers(rs, g);
            &&& ls.len() >= 1
            &&& ls[0] == rs
            &&& ls[ls.len() - 1].len() == 1
            &&& forall|k: int| 0 <= k < ls.len() ==> partitions(#[trigger] ls[k], lo, hi)
            &&& forall|k: int| 0 <= k < ls.len() - 1 ==> #[trigger] grouped_step(ls, g, k)
        }),
    decreases rs.len(),
{
    lemma_range_layers_first(rs, g);
    let ls = range_layers(rs, g);
    if rs.len() > 1 {
        lemma_group_partition(rs, g, lo, hi);
        let gr = group_ranges(rs, g);
        lemma_layers_partition(gr, g, lo, hi);
        let rest = range_layers(gr, g);
        assert(ls == seq![rs] + rest);
        assert forall|k: int| 0 <= k < ls.len() implies partitions(#[trigger] ls[k], lo, hi) by {
            if k > 0 {
                assert(ls[k] == rest[k - 1]);
            }
        }
        assert forall|k: int| 0 <= k < ls.len() - 1 implies #[trigger] grouped_step(ls, g, k) by {
            if k > 0 {
                assert(ls[k] == rest[k - 1]);
                assert(ls[k + 1] == rest[k]);
                assert(grouped_step(rest, g, k - 1));
            } else {
                assert(ls[1] == rest[0]);
            }
        }
        assert(ls[ls.len() - 1] == rest[rest.len() - 1]);
    }
}

/// In layers that group cuts, piece `c` of layer `k` lies inside piece `c / g` of layer `k + 1`.
pub proof fn lemma_layer_member(ls: Seq<Seq<(int, int)>>, g: int, lo: int, hi: int, k: int, c: int)
    requires
        g >= 2,
        0 <= k < ls.len() - 1,
        0 <= c < ls[k].len(),
        partitions(ls[k], lo, hi),
        ls[k].len() >= 2,
        ls[k + 1] == group_ranges(ls[k], g),
    ensures
        c / g < ls[k + 1].len(),
        ls[k + 1][c / g].0 <= ls[k][c].0,
        ls[k][c].1 <= ls[k + 1][c / g].1,
{
    lemma_group_member(ls[k], g, lo, hi, c);
}

/// In layers that group cuts, piece `i` of layer `k` groups one to `g` pieces of layer `k - 1`.
pub proof fn lemma_layer_piece(ls: Seq<Seq<(int, int)>>, g: int, lo: int, hi: int, k: int, i: int)
    requires
        g >= 2,
        0 < k < ls.len(),
        0 <= i < ls[k].len(),
        partitions(ls[k - 1], lo, hi),
        ls[k - 1].len() >= 2,
        ls[k] == group_ranges(ls[k - 1], g),
    ensures
        1 <= chunk_end(ls[k - 1].len() as int, g, i) - i * g <= g,
{
    lemma_group_piece(ls[k - 1], g, lo, hi, i);
}

/// The shape of a numerical taxonomy: `create_from_data_range` builds its
/// nodes layer by layer from these intervals (see `numerical_nodes_spec`).
/// Each layer cuts `min_val..=max_val` into consecutive pieces; the top layer
/// is the single interval `min_val..=max_val`, the root; a node of one layer
/// lies inside its parent, the node of the next layer whose id names the
/// group it belongs to; and a parent has from one to `g` children.
#[verifier::spinoff_prover]
pub proof fn lemma_numerical_layers(col: Seq<char>, min_val: int, max_val: int, b: int, g: int)
    requires
        min_val <= max_val,
        b >= 1,
        g >= 2,
    ensures
        ({
            let ls = range_layers(leaf_ranges(min_val, max_val, b), g);
            &&& ls.len() >= 1
            &&& ls[0] == leaf_ranges(min_val, max_val, b)
            &&& ls[ls.len() - 1] == seq![(min_val, max_val)]
            &&& forall|k: int| 0 <= k < ls.len() ==> partitions(#[trigger] ls[k], min_val, max_val)
            &&& forall|k: int, c: int|
                0 <= k < ls.len() - 1 && 0 <= c < ls[k].len() ==> {
                    &&& c / g < ls[k + 1].len()
                    &&& ls[k + 1][c / g].0 <= ls[k][c].0
                    &&& ls[k][c].1 <= ls[k + 1][c / g].1
                    &&& (#[trigger] closed_layer_node(col, ls, g, k, c)).range == ls[k][c]
                    &&& closed_layer_node(col, ls, g, k, c).parent == Some(num_id(col, k + 1, ls[k + 1][c / g]))
                }
            &&& forall|k: int, i: int|
                0 < k < ls.len() && 0 <= i < ls[k].len() ==> 1 <= (#[trigger] open_layer_node(col, ls, g, k, i)).children.len()
                    <= g
        }),
{
    let l = leaf_ranges(min_val, max_val, b);
    lemma_leaf_partition(min_val, max_val, b);
    lemma_layers_partition(l, g, min_val, max_val);
    let ls = range_layers(l, g);
    let top = ls[ls.len() - 1];
    assert(top.len() == 1);
    assert(top =~= seq![(min_val, max_val)]);
    assert forall|k: int, c: int| 0 <= k < ls.len() - 1 && 0 <= c < ls[k].len() implies {
        &&& c / g < ls[k + 1].len()
        &&& ls[k + 1][c / g].0 <= ls[k][c].0
        &&& ls[k][c].1 <= ls[k + 1][c / g].1
        &&& (#[trigger] closed_layer_node(col, ls, g, k, c)).range == ls[k][c]
        &&& closed_layer_node(col, ls, g, k, c).parent == Some(num_id(col, k + 1, ls[k + 1][c / g]))
    } by {
        assert(grouped_step(ls, g, k));
        assert(partitions(ls[k], min_val, max_val));
        lemma_layer_member(ls, g, min_val, max_val, k, c);
    }
    assert forall|k: int, i: int| 0 < k < ls.len() && 0 <= i < ls[k].len() implies 1 <= (#[trigger] open_layer_node(
        col,
        ls,
        g,
        k,
        i,
    )).children.len() <= g by {
        assert(grouped_step(ls, g, k - 1));
        assert(partitions(ls[k - 1], min_val, max_val));
        lemma_layer_piece(ls, g, min_val, max_val, k, i);
    }
}
} // verus!
