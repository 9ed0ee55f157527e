//! Incognito full-domain k-anonymity (LeFevre, DeWitt and Ramakrishnan,
//! SIGMOD 2005): every quasi-identifier is generalized the same number of
//! levels on every row; the lattice of such generalizations is searched
//! bottom-up, subset of quasi-identifiers by subset, with frequency tables
//! rolled up from level to level.
use crate::taxonomy::qi_height_spec;
use vstd::prelude::*;
use crate::algorithms::anonymization_algorithm::{is_k_anonymous, table_is_k_anonymous, AlgorithmError, AnonymizationAlgorithm};
use crate::data::qi::{QIType, QuasiIdentifier, QuasiIdentifiers, same_qi, same_qi_type};
use crate::data::dataset::Dataset;
use crate::taxonomy::lookup_named;
use crate::taxonomy::categorical::{first_id_from, nodes_view, NodeModel};
use crate::taxonomy::numerical::{num_nodes_view, NumericalNode, NumericalTaxonomy, NumNodeModel};
use crate::taxonomy::categorical::{CategoricalNode, CategoricalTaxonomy};
use crate::text::{chars_lt, chars_of, clone_opt_string, int_decimal, lex_lt, opt_string_view, push_decimal_i64, string_from_chars};
use crate::data::table::{CellsModel, Column, ColumnData, first_column_from, opt_strings_view, Table, TableModel};
use itertools::Itertools;
use std::sync::Arc;

verus! {

broadcast use vstd::seq_lib::group_seq_properties;

/// A quasi-identifier cell as Incognito generalizes it: an interval of
/// integers, or a label.
#[derive(Debug)]
pub enum GenValue {
    Range(i64, i64),
    Text(String),
}

/// The content of a generalized cell.
pub ghost enum GenKey {
    Range(int, int),
    Text(Seq<char>),
}

impl View for GenValue {
    type V = GenKey;

    open spec fn view(&self) -> GenKey {
        match self {
            GenValue::Range(lo, hi) => GenKey::Range(*lo as int, *hi as int),
            GenValue::Text(s) => GenKey::Text(s@),
        }
    }
}

/// The content of an optional cell.
pub open spec fn opt_key(o: Option<GenValue>) -> Option<GenKey> {
    match o {
        Some(v) => Some(v@),
        None => None,
    }
}

/// The content of a row of cells.
pub open spec fn key_view(k: Seq<Option<GenValue>>) -> Seq<Option<GenKey>> {
    k.map_values(|o: Option<GenValue>| opt_key(o))
}

impl GenValue {
    /// A copy of this value.
    pub fn copy(&self) -> (r: GenValue)
        ensures
            r@ == self@,
    {
        match self {
            GenValue::Range(lo, hi) => GenValue::Range(*lo, *hi),
            GenValue::Text(s) => GenValue::Text(s.clone()),
        }
    }

    /// Whether two values are the same.
    pub fn same(&self, other: &GenValue) -> (r: bool)
        ensures
            r == (self@ == other@),
    {
        match (self, other) {
            (GenValue::Range(a, b), GenValue::Range(c, d)) => *a == *c && *b == *d,
            (GenValue::Text(s), GenValue::Text(t)) => *s == *t,
            _ => false,
        }
    }
}

/// A copy of an optional value.
pub fn copy_opt_value(o: &Option<GenValue>) -> (r: Option<GenValue>)
    ensures
        opt_key(r) == opt_key(*o),
{
    match o {
        Some(v) => Some(v.copy()),
        None => None,
    }
}

/// Whether two optional values are the same.
pub fn same_opt_value(a: &Option<GenValue>, b: &Option<GenValue>) -> (r: bool)
    ensures
        r == (opt_key(*a) == opt_key(*b)),
{
    match (a, b) {
        (Some(x), Some(y)) => x.same(y),
        (None, None) => true,
        _ => false,
    }
}

/// Pushing a cell pushes its content.
pub proof fn lemma_key_view_push(s: Seq<Option<GenValue>>, x: Option<GenValue>)
    ensures
        key_view(s.push(x)) == key_view(s).push(opt_key(x)),
{
    assert(key_view(s.push(x)) =~= key_view(s).push(opt_key(x)));
}

/// A copy of a row of cells.
pub fn copy_key(k: &Vec<Option<GenValue>>) -> (r: Vec<Option<GenValue>>)
    ensures
        key_view(r@) == key_view(k@),
        r@.len() == k@.len(),
{
    let mut r: Vec<Option<GenValue>> = Vec::new();
    for i in 0..k.len()
        invariant
            key_view(r@) == key_view(k@).take(i as int),
    {
        let ghost before = r@;
        let c = copy_opt_value(&k[i]);
        r.push(c);
        proof {
            lemma_key_view_push(before, c);
            assert(key_view(k@).take(i as int + 1) =~= key_view(k@).take(i as int).push(key_view(k@)[i as int]));
        }
    }
    assert(key_view(k@).take(k@.len() as int) =~= key_view(k@));
    r
}

/// Whether two rows of cells are the same.
pub fn same_key(a: &Vec<Option<GenValue>>, b: &Vec<Option<GenValue>>) -> (r: bool)
    ensures
        r == (key_view(a@) == key_view(b@)),
{
    if a.len() != b.len() {
        assert(key_view(a@).len() != key_view(b@).len());
        return false;
    }
    for i in 0..a.len()
        invariant
            a@.len() == b@.len(),
            forall|j: int| 0 <= j < i ==> opt_key(#[trigger] a@[j]) == opt_key(b@[j]),
    {
        if !same_opt_value(&a[i], &b[i]) {
            assert(key_view(a@)[i as int] != key_view(b@)[i as int]);
            return false;
        }
    }
    assert(key_view(a@) =~= key_view(b@));
    true
}

/// The targets of the edges leaving `x`, in order.
pub open spec fn targets(edges: Seq<(GenKey, GenKey)>, x: GenKey) -> Seq<Option<GenKey>>
    decreases edges.len(),
{
    if edges.len() == 0 {
        Seq::empty()
    } else {
        let t = targets(edges.drop_last(), x);
        if edges.last().0 == x {
            t.push(Some(edges.last().1))
        } else {
            t
        }
    }
}

/// One generalization step of a value through `edges` (pairs of a value and
/// the value one level up): the targets of the edges leaving it, in order;
/// the value itself when no edge leaves it or it is null.
pub open spec fn gen_step(edges: Seq<(GenKey, GenKey)>, v: Option<GenKey>) -> Seq<Option<GenKey>> {
    match v {
        None => seq![None],
        Some(x) => if targets(edges, x).len() == 0 {
            seq![v]
        } else {
            targets(edges, x)
        },
    }
}

/// The one-level generalization of a quasi-identifier: each edge takes a
/// value to the value one level up.
pub struct DimensionTable {
    pub edges: Vec<(GenValue, GenValue)>,
}

/// The contents of a list of edges.
pub open spec fn edges_view(e: Seq<(GenValue, GenValue)>) -> Seq<(GenKey, GenKey)> {
    e.map_values(|p: (GenValue, GenValue)| (p.0@, p.1@))
}

impl DimensionTable {
    /// One generalization step of `v` (see `gen_step`).
    pub fn step(&self, v: &Option<GenValue>) -> (r: Vec<Option<GenValue>>)
        ensures
            key_view(r@) == gen_step(edges_view(self.edges@), opt_key(*v)),
    {
        let ghost ev = edges_view(self.edges@);
        match v {
            None => {
                let mut r: Vec<Option<GenValue>> = Vec::new();
                r.push(None);
                proof {
                    lemma_key_view_push(Seq::empty(), None);
                    assert(Seq::<Option<GenValue>>::empty().push(None) =~= r@);
                    assert(key_view(Seq::empty()) =~= Seq::<Option<GenKey>>::empty());
                    assert(key_view(r@) =~= seq![None::<GenKey>]);
                    assert(gen_step(ev, None) == seq![None::<GenKey>]);
                    assert(opt_key(*v) == None::<GenKey>);
                    assert(key_view(r@) == gen_step(ev, opt_key(*v)));
                }
                r
            },
            Some(x) => {
                let mut r: Vec<Option<GenValue>> = Vec::new();
                for i in 0..self.edges.len()
                    invariant
                        ev == edges_view(self.edges@),
                        key_view(r@) == targets(ev.take(i as int), x@),
                {
                    assert(ev.take(i as int + 1).drop_last() =~= ev.take(i as int));
                    assert(ev[i as int] == (self.edges@[i as int].0@, self.edges@[i as int].1@));
                    if self.edges[i].0.same(x) {
                        let ghost before = r@;
                        let t = Some(self.edges[i].1.copy());
                        r.push(t);
                        proof {
                            lemma_key_view_push(before, t);
                        }
                    }
                }
                assert(ev.take(ev.len() as int) =~= ev);
                if r.len() == 0 {
                    let t = Some(x.copy());
                    r.push(t);
                    proof {
                        lemma_key_view_push(Seq::empty(), t);
                        assert(Seq::<Option<GenValue>>::empty().push(t) =~= r@);
                        assert(key_view(Seq::empty()) =~= Seq::<Option<GenKey>>::empty());
                    }
                }
                r
            },
        }
    }
}


/// Index of the first numerical node at or after `i` with id `id`.
pub open spec fn num_first_id(ns: Seq<NumNodeModel>, id: Seq<char>, i: int) -> Option<int>
    decreases ns.len() - i,
{
    if 0 <= i < ns.len() {
        if ns[i].id == id {
            Some(i)
        } else {
            num_first_id(ns, id, i + 1)
        }
    } else {
        None
    }
}

pub proof fn lemma_num_first_id(ns: Seq<NumNodeModel>, id: Seq<char>, a: int)
    requires
        0 <= a,
    ensures
        num_first_id(ns, id, a) matches Some(j) ==> a <= j < ns.len() && ns[j].id == id,
    decreases ns.len() - a,
{
    if a < ns.len() && ns[a].id != id {
        lemma_num_first_id(ns, id, a + 1);
    }
}

/// The interval node `i` generalizes to: its parent's (the first node with
/// the parent's id), its own at the root; none when the parent is missing.
pub open spec fn num_up(ns: Seq<NumNodeModel>, i: int) -> Option<(int, int)> {
    match ns[i].parent {
        None => Some(ns[i].range),
        Some(p) => match num_first_id(ns, p, 0) {
            Some(j) => Some(ns[j].range),
            None => None,
        },
    }
}

/// Every numerical node's parent is present.
pub open spec fn num_parents_ok(ns: Seq<NumNodeModel>) -> bool {
    forall|i: int| 0 <= i < ns.len() ==> (#[trigger] num_up(ns, i)) is Some
}

/// Index, among `ns[..i]`, of the highest-level node over interval `r` (the
/// earliest on a tie).
pub open spec fn top_with_range(ns: Seq<NumNodeModel>, r: (int, int), i: int) -> Option<int>
    decreases i,
{
    if i <= 0 {
        None
    } else {
        let b = top_with_range(ns, r, i - 1);
        if ns[i - 1].range != r {
            b
        } else {
            match b {
                None => Some(i - 1),
                Some(j) => if ns[i - 1].level > ns[j].level {
                    Some(i - 1)
                } else {
                    Some(j)
                },
            }
        }
    }
}

pub proof fn lemma_top_with_range(ns: Seq<NumNodeModel>, r: (int, int), i: int)
    requires
        0 <= i <= ns.len(),
    ensures
        top_with_range(ns, r, i) matches Some(j) ==> 0 <= j < i && ns[j].range == r,
        top_with_range(ns, r, i) is None <==> forall|j: int| 0 <= j < i ==> ns[j].range != r,
    decreases i,
{
    if i > 0 {
        lemma_top_with_range(ns, r, i - 1);
    }
}

/// The interval `r` generalizes to: that of the highest-level node over `r`.
pub open spec fn num_target(ns: Seq<NumNodeModel>, r: (int, int)) -> (int, int) {
    match top_with_range(ns, r, ns.len() as int) {
        Some(j) => match num_up(ns, j) {
            Some(t) => t,
            None => r,
        },
        None => r,
    }
}

/// The edges of a numerical dimension table over `ns[..i]`: one per distinct
/// interval, in order of first appearance, to the interval it generalizes to.
pub open spec fn num_edges_upto(ns: Seq<NumNodeModel>, i: int) -> Seq<(GenKey, GenKey)>
    decreases i,
{
    if i <= 0 {
        Seq::empty()
    } else {
        let e = num_edges_upto(ns, i - 1);
        let r = ns[i - 1].range;
        if top_with_range(ns, r, i - 1) is Some {
            e
        } else {
            let t = num_target(ns, r);
            e.push((GenKey::Range(r.0, r.1), GenKey::Range(t.0, t.1)))
        }
    }
}

/// The edges of a categorical dimension table over `ns[..i]`: one per node
/// with a parent, in order, from its value to its parent's value.
pub open spec fn cat_edges_upto(ns: Seq<NodeModel>, i: int) -> Seq<(GenKey, GenKey)>
    decreases i,
{
    if i <= 0 {
        Seq::empty()
    } else {
        let e = cat_edges_upto(ns, i - 1);
        match ns[i - 1].parent {
            None => e,
            Some(p) => match first_id_from(ns, p, 0) {
                Some(j) => e.push((GenKey::Text(ns[i - 1].value), GenKey::Text(ns[j].value))),
                None => e,
            },
        }
    }
}

/// Node `c` of `ns` has a parent reference that names a node of `ns`, and
/// the edge `e` goes from its value to that node's value.
#[verifier::opaque]
pub open spec fn parent_edge(ns: Seq<NodeModel>, c: int, e: (GenKey, GenKey)) -> bool {
    ns[c].parent matches Some(p) && first_id_from(ns, p, 0) matches Some(j) && e == (
        GenKey::Text(ns[c].value),
        GenKey::Text(ns[j].value),
    )
}

/// The edge `e` goes from the value of one of the nodes `ns[..i]` to the
/// value of the node its parent reference names.
pub open spec fn edge_up(ns: Seq<NodeModel>, i: int, e: (GenKey, GenKey)) -> bool {
    exists|c: int| 0 <= c < i && #[trigger] parent_edge(ns, c, e)
}

/// Node `c` gives an edge among `es`.
pub open spec fn edge_listed(ns: Seq<NodeModel>, c: int, es: Seq<(GenKey, GenKey)>) -> bool {
    exists|t: int| 0 <= t < es.len() && #[trigger] parent_edge(ns, c, es[t])
}

/// The edges of a categorical dimension table go up one step: each goes
/// from the value of a node to the value of the node its parent reference
/// names, and each node whose parent reference names a node gives such an
/// edge, in the order of the nodes.
#[verifier::spinoff_prover]
#[verifier::rlimit(40)]
pub proof fn lemma_cat_edges_parent(ns: Seq<NodeModel>, i: int)
    requires
        0 <= i <= ns.len(),
    ensures
        forall|t: int| 0 <= t < cat_edges_upto(ns, i).len() ==> edge_up(ns, i, #[trigger] cat_edges_upto(ns, i)[t]),
        forall|c: int|
            0 <= c < i && ((#[trigger] ns[c].parent) matches Some(p) && first_id_from(ns, p, 0) is Some) ==> edge_listed(
                ns,
                c,
                cat_edges_upto(ns, i),
            ),
    decreases i,
{
    if i > 0 {
        lemma_cat_edges_parent(ns, i - 1);
        let found = ns[i - 1].parent matches Some(p) && first_id_from(ns, p, 0) is Some;
        if found {
            let j = first_id_from(ns, ns[i - 1].parent->0, 0)->0;
            assert(cat_edges_upto(ns, i) == cat_edges_upto(ns, i - 1).push((GenKey::Text(ns[i - 1].value), GenKey::Text(ns[j].value))));
            assert(parent_edge(ns, i - 1, cat_edges_upto(ns, i)[cat_edges_upto(ns, i - 1).len() as int])) by {
                reveal(parent_edge);
            }
        } else {
            assert(cat_edges_upto(ns, i) == cat_edges_upto(ns, i - 1));
        }
        assert forall|t: int| 0 <= t < cat_edges_upto(ns, i).len() implies edge_up(ns, i, #[trigger] cat_edges_upto(ns, i)[t]) by {
            if t < cat_edges_upto(ns, i - 1).len() {
                assert(cat_edges_upto(ns, i)[t] == cat_edges_upto(ns, i - 1)[t]);
                assert(edge_up(ns, i - 1, cat_edges_upto(ns, i - 1)[t]));
                let c = choose|c: int| 0 <= c < i - 1 && #[trigger] parent_edge(ns, c, cat_edges_upto(ns, i - 1)[t]);
                assert(parent_edge(ns, c, cat_edges_upto(ns, i)[t]));
            } else {
                assert(t == cat_edges_upto(ns, i - 1).len());
                assert(parent_edge(ns, i - 1, cat_edges_upto(ns, i)[t]));
            }
        }
        assert forall|c: int|
            0 <= c < i && ((#[trigger] ns[c].parent) matches Some(p) && first_id_from(ns, p, 0) is Some) implies edge_listed(
                ns,
                c,
                cat_edges_upto(ns, i),
            ) by {
            if c < i - 1 {
                assert(edge_listed(ns, c, cat_edges_upto(ns, i - 1)));
                let t = choose|t: int| 0 <= t < cat_edges_upto(ns, i - 1).len() && #[trigger] parent_edge(ns, c, cat_edges_upto(ns, i - 1)[t]);
                assert(cat_edges_upto(ns, i)[t] == cat_edges_upto(ns, i - 1)[t]);
                assert(parent_edge(ns, c, cat_edges_upto(ns, i)[t]));
            } else {
                assert(c == i - 1);
                assert(found);
                assert(parent_edge(ns, c, cat_edges_upto(ns, i)[cat_edges_upto(ns, i - 1).len() as int]));
            }
        }
    } else {
        assert(cat_edges_upto(ns, i) =~= Seq::<(GenKey, GenKey)>::empty());
    }
}

/// The dimension table of quasi-identifier `qi`, or why it cannot be built.
pub open spec fn dim_table_spec(ds: Dataset, qi: QuasiIdentifier) -> Result<Seq<(GenKey, GenKey)>, AlgorithmError> {
    let name = qi.column_name@;
    match qi.qi_type {
        QIType::Numerical { .. } => match lookup_named(ds.taxonomies@.numerical, name) {
            None => Err(AlgorithmError::MissingTaxonomy(qi.column_name)),
            Some(t) => if num_parents_ok(t.nodes) {
                Ok(num_edges_upto(t.nodes, t.nodes.len() as int))
            } else {
                Err(AlgorithmError::BrokenTaxonomy(qi.column_name))
            },
        },
        QIType::Categorical { .. } => match lookup_named(ds.taxonomies@.categorical, name) {
            None => Err(AlgorithmError::MissingTaxonomy(qi.column_name)),
            Some(t) => Ok(cat_edges_upto(t.nodes, t.nodes.len() as int)),
        },
    }
}

/// The dimension table of a categorical quasi-identifier with a taxonomy
/// takes each value one step up: every edge goes from a node's value to the
/// value of the node its parent reference names, and every node whose parent
/// reference names a node gives an edge.
pub proof fn lemma_dim_table_categorical(ds: Dataset, qi: QuasiIdentifier)
    requires
        qi.qi_type is Categorical,
        lookup_named(ds.taxonomies@.categorical, qi.column_name@) is Some,
    ensures
        ({
            let ns = lookup_named(ds.taxonomies@.categorical, qi.column_name@)->0.nodes;
            dim_table_spec(ds, qi) matches Ok(es) && (forall|e: int|
                0 <= e < es.len() ==> edge_up(ns, ns.len() as int, #[trigger] es[e])) && (forall|c: int|
                0 <= c < ns.len() && ((#[trigger] ns[c].parent) matches Some(p) && first_id_from(ns, p, 0) is Some)
                    ==> edge_listed(ns, c, es))
        }),
{
    let ns = lookup_named(ds.taxonomies@.categorical, qi.column_name@)->0.nodes;
    lemma_cat_edges_parent(ns, ns.len() as int);
}

/// The dimension tables of the quasi-identifiers, in order.
pub struct DimensionTables {
    pub keys: Vec<QuasiIdentifier>,
    pub tables: Vec<DimensionTable>,
}

/// The same quasi-identifier in every field.
pub open spec fn same_qi_key(a: QuasiIdentifier, b: QuasiIdentifier) -> bool {
    same_qi(a, b) && a.incognito_colname@ == b.incognito_colname@
}

/// Index of the last key among `keys[..i]` that is `qi` in every field.
pub open spec fn last_key_upto(keys: Seq<QuasiIdentifier>, qi: QuasiIdentifier, i: int) -> Option<int>
    decreases i,
{
    if i <= 0 {
        None
    } else if same_qi_key(keys[i - 1], qi) {
        Some(i - 1)
    } else {
        last_key_upto(keys, qi, i - 1)
    }
}

/// Whether `qi` has a dimension table.
pub open spec fn has_table(dims: DimensionTables, qi: QuasiIdentifier) -> bool {
    last_key_upto(dims.keys@, qi, dims.keys@.len() as int) is Some
}

/// The edges of the dimension table of `qi` (the last one stored for it).
pub open spec fn table_of(dims: DimensionTables, qi: QuasiIdentifier) -> Seq<(GenKey, GenKey)> {
    match last_key_upto(dims.keys@, qi, dims.keys@.len() as int) {
        Some(j) => edges_view(dims.tables@[j].edges@),
        None => Seq::empty(),
    }
}

impl DimensionTables {
    /// The tables line up with the keys.
    pub open spec fn wf(&self) -> bool {
        self.keys@.len() == self.tables@.len()
    }

    /// The dimension table of `qi` (see `table_of`).
    pub fn get(&self, qi: &QuasiIdentifier) -> (r: Option<&DimensionTable>)
        requires
            self.wf(),
        ensures
            has_table(*self, *qi) <==> r is Some,
            r matches Some(t) ==> edges_view(t.edges@) == table_of(*self, *qi),
    {
        let mut i = self.keys.len();
        while i > 0
            invariant
                self.wf(),
                i <= self.keys@.len(),
                last_key_upto(self.keys@, *qi, self.keys@.len() as int) == last_key_upto(self.keys@, *qi, i as int),
            decreases i,
        {
            let k = &self.keys[i - 1];
            if k.same(qi) && k.incognito_colname == qi.incognito_colname {
                return Some(&self.tables[i - 1]);
            }
            i -= 1;
        }
        None
    }
}


/// Index of the first numerical node with id `id`.
fn num_find_id(nodes: &Vec<NumericalNode>, id: &String) -> (r: Option<usize>)
    ensures
        r matches Some(j) ==> j < nodes@.len() && num_first_id(num_nodes_view(nodes@), id@, 0) == Some(j as int),
        r is None ==> num_first_id(num_nodes_view(nodes@), id@, 0) is None,
{
    let ghost ns = num_nodes_view(nodes@);
    let mut i: usize = 0;
    while i < nodes.len()
        invariant
            ns == num_nodes_view(nodes@),
            0 <= i <= nodes@.len(),
            num_first_id(ns, id@, 0) == num_first_id(ns, id@, i as int),
        decreases nodes@.len() - i,
    {
        if nodes[i].id == *id {
            return Some(i);
        }
        i += 1;
    }
    None
}

/// The interval node `i` generalizes to (see `num_up`).
fn num_up_exec(nodes: &Vec<NumericalNode>, i: usize) -> (r: Option<(i64, i64)>)
    requires
        i < nodes@.len(),
    ensures
        match num_up(num_nodes_view(nodes@), i as int) {
            Some(t) => r matches Some(x) && x.0 as int == t.0 && x.1 as int == t.1,
            None => r is None,
        },
{
    let ghost ns = num_nodes_view(nodes@);
    assert(ns[i as int] == nodes@[i as int]@);
    match &nodes[i].parent {
        None => Some(nodes[i].range),
        Some(p) => {
            proof {
                lemma_num_first_id(ns, p@, 0);
            }
            match num_find_id(nodes, p) {
                Some(j) => {
                    assert(ns[j as int] == nodes@[j as int]@);
                    assert(ns[i as int].parent == Some(p@));
                    assert(num_first_id(ns, p@, 0) == Some(j as int));
                    assert(num_up(ns, i as int) == Some((nodes@[j as int].range.0 as int, nodes@[j as int].range.1 as int)));
                    Some(nodes[j].range)
                },
                None => None,
            }
        },
    }
}

/// Index, among `nodes[..i]`, of the highest-level node over `r` (see `top_with_range`).
fn top_with_range_exec(nodes: &Vec<NumericalNode>, r: (i64, i64), i: usize) -> (t: Option<usize>)
    requires
        i <= nodes@.len(),
    ensures
        t matches Some(j) ==> j < i && top_with_range(num_nodes_view(nodes@), (r.0 as int, r.1 as int), i as int)
            == Some(j as int),
        t is None ==> top_with_range(num_nodes_view(nodes@), (r.0 as int, r.1 as int), i as int) is None,
{
    let ghost ns = num_nodes_view(nodes@);
    let ghost rr = (r.0 as int, r.1 as int);
    let mut best: Option<usize> = None;
    for q in 0..i
        invariant
            i <= nodes@.len(),
            ns == num_nodes_view(nodes@),
            rr == (r.0 as int, r.1 as int),
            best matches Some(j) ==> j < q && top_with_range(ns, rr, q as int) == Some(j as int),
            best is None ==> top_with_range(ns, rr, q as int) is None,
    {
        assert(ns[q as int] == nodes@[q as int]@);
        proof {
            lemma_top_with_range(ns, rr, q as int);
        }
        if nodes[q].range.0 == r.0 && nodes[q].range.1 == r.1 {
            match best {
                None => {
                    best = Some(q);
                },
                Some(j) => {
                    if nodes[q].level > nodes[j].level {
                        best = Some(q);
                    }
                },
            }
        }
    }
    best
}

/// The numerical dimension table of `t` (see `num_edges_upto`); none when a
/// node's parent is missing.
pub fn numerical_dimension_table(t: &NumericalTaxonomy) -> (r: Option<DimensionTable>)
    ensures
        num_parents_ok(t@.nodes) ==> (r matches Some(d) && edges_view(d.edges@) == num_edges_upto(
            t@.nodes,
            t@.nodes.len() as int,
        )),
        !num_parents_ok(t@.nodes) ==> r is None,
{
    let nodes = &t.nodes;
    let ghost ns = num_nodes_view(nodes@);
    assert(ns == t@.nodes);
    let n = nodes.len();
    for i in 0..n
        invariant
            n == nodes@.len(),
            ns == num_nodes_view(nodes@),
            ns == t@.nodes,
            forall|j: int| 0 <= j < i ==> (#[trigger] num_up(ns, j)) is Some,
    {
        if num_up_exec(nodes, i).is_none() {
            assert(!num_parents_ok(ns));
            return None;
        }
    }
    let mut edges: Vec<(GenValue, GenValue)> = Vec::new();
    for i in 0..n
        invariant
            n == nodes@.len(),
            ns == num_nodes_view(nodes@),
            num_parents_ok(ns),
            edges_view(edges@) == num_edges_upto(ns, i as int),
    {
        let r = nodes[i].range;
        assert(ns[i as int].range == (r.0 as int, r.1 as int));
        proof {
            lemma_top_with_range(ns, (r.0 as int, r.1 as int), n as int);
        }
        if top_with_range_exec(nodes, r, i).is_none() {
            let top = top_with_range_exec(nodes, r, n);
            let target = match top {
                Some(j) => match num_up_exec(nodes, j) {
                    Some(x) => x,
                    None => r,
                },
                None => r,
            };
            let ghost before = edges@;
            edges.push((GenValue::Range(r.0, r.1), GenValue::Range(target.0, target.1)));
            assert(edges_view(edges@) =~= edges_view(before).push(
                (GenKey::Range(r.0 as int, r.1 as int), GenKey::Range(target.0 as int, target.1 as int)),
            ));
        }
    }
    Some(DimensionTable { edges })
}

/// The categorical dimension table of `t` (see `cat_edges_upto`).
pub fn categorical_dimension_table(t: &CategoricalTaxonomy) -> (d: DimensionTable)
    ensures
        edges_view(d.edges@) == cat_edges_upto(t@.nodes, t@.nodes.len() as int),
        forall|e: int|
            0 <= e < d.edges@.len() ==> edge_up(t@.nodes, t@.nodes.len() as int, #[trigger] edges_view(d.edges@)[e]),
        forall|c: int|
            0 <= c < t@.nodes.len() && ((#[trigger] t@.nodes[c].parent) matches Some(p) && first_id_from(t@.nodes, p, 0)
                is Some) ==> edge_listed(t@.nodes, c, edges_view(d.edges@)),
{
    proof {
        lemma_cat_edges_parent(t@.nodes, t@.nodes.len() as int);
    }
    let nodes = &t.nodes;
    let ghost ns = nodes_view(nodes@);
    assert(ns == t@.nodes);
    let n = nodes.len();
    let mut edges: Vec<(GenValue, GenValue)> = Vec::new();
    for i in 0..n
        invariant
            n == nodes@.len(),
            ns == nodes_view(nodes@),
            nodes@ == t.nodes@,
            edges_view(edges@) == cat_edges_upto(ns, i as int),
    {
        assert(ns[i as int] == nodes@[i as int]@);
        match &nodes[i].parent {
            None => {},
            Some(p) => match t.index_of_id(p) {
                Some(j) => {
                    assert(j < t.nodes@.len());
                    let ghost before = edges@;
                    edges.push((GenValue::Text(nodes[i].value.clone()), GenValue::Text(nodes[j].value.clone())));
                    assert(edges_view(edges@) =~= edges_view(before).push(
                        (GenKey::Text(ns[i as int].value), GenKey::Text(ns[j as int].value)),
                    ));
                },
                None => {},
            },
        }
    }
    DimensionTable { edges }
}


/// The groups of a frequency table: the cells of each group and its count.
pub type FreqModel = Seq<(Seq<Option<GenKey>>, int)>;

/// One group of a frequency table: the quasi-identifier cells its rows share,
/// and how many they are.
pub struct FreqEntry {
    pub key: Vec<Option<GenValue>>,
    pub count: u64,
}

/// The content of a group.
pub open spec fn entry_view(e: FreqEntry) -> (Seq<Option<GenKey>>, int) {
    (key_view(e.key@), e.count as int)
}

/// The content of a list of groups.
pub open spec fn freq_view(es: Seq<FreqEntry>) -> FreqModel {
    es.map_values(|e: FreqEntry| entry_view(e))
}

/// Pushing a group pushes its content.
pub proof fn lemma_freq_view_push(s: Seq<FreqEntry>, x: FreqEntry)
    ensures
        freq_view(s.push(x)) == freq_view(s).push(entry_view(x)),
{
    assert(freq_view(s.push(x)) =~= freq_view(s).push(entry_view(x)));
}

/// Counts that would pass `u64::MAX` stay there.
pub open spec fn sat_add(a: int, b: int) -> int {
    if a + b > u64::MAX {
        u64::MAX as int
    } else {
        a + b
    }
}

/// Index of the first group at or after `i` whose cells are `k`.
pub open spec fn find_key_from(fs: FreqModel, k: Seq<Option<GenKey>>, i: int) -> Option<int>
    decreases fs.len() - i,
{
    if 0 <= i < fs.len() {
        if fs[i].0 == k {
            Some(i)
        } else {
            find_key_from(fs, k, i + 1)
        }
    } else {
        None
    }
}

pub proof fn lemma_find_key_from(fs: FreqModel, k: Seq<Option<GenKey>>, a: int)
    requires
        0 <= a,
    ensures
        find_key_from(fs, k, a) matches Some(j) ==> a <= j < fs.len() && fs[j].0 == k,
        find_key_from(fs, k, a) is None ==> forall|j: int| a <= j < fs.len() ==> fs[j].0 != k,
    decreases fs.len() - a,
{
    if a < fs.len() && fs[a].0 != k {
        lemma_find_key_from(fs, k, a + 1);
    }
}

/// The groups of `es[..i]` merged by cells, in order of first appearance,
/// with their counts summed.
pub open spec fn group_sum_upto(es: FreqModel, i: int) -> FreqModel
    decreases i,
{
    if i <= 0 {
        Seq::empty()
    } else {
        let g = group_sum_upto(es, i - 1);
        let e = es[i - 1];
        match find_key_from(g, e.0, 0) {
            Some(j) => g.update(j, (e.0, sat_add(g[j].1, e.1))),
            None => g.push(e),
        }
    }
}

/// The groups of `es` merged by cells (see `group_sum_upto`).
pub open spec fn group_sum(es: FreqModel) -> FreqModel {
    group_sum_upto(es, es.len() as int)
}

/// Each group generalized one step on the cell at `pos` through `edges`:
/// one group per target, with the group's count.
pub open spec fn gen_entries(es: FreqModel, pos: int, edges: Seq<(GenKey, GenKey)>) -> FreqModel
    decreases es.len(),
{
    if es.len() == 0 {
        Seq::empty()
    } else {
        let e = es.last();
        let ts = gen_step(edges, e.0[pos]);
        gen_entries(es.drop_last(), pos, edges) + Seq::new(ts.len(), |j: int| (e.0.update(pos, ts[j]), e.1))
    }
}

/// `gen_entries` applied `n` times.
pub open spec fn gen_times(es: FreqModel, pos: int, edges: Seq<(GenKey, GenKey)>, n: nat) -> FreqModel
    decreases n,
{
    if n == 0 {
        es
    } else {
        gen_entries(gen_times(es, pos, edges, (n - 1) as nat), pos, edges)
    }
}

/// Every group's cells have `w` entries.
pub open spec fn keys_of_width(es: FreqModel, w: int) -> bool {
    forall|i: int| 0 <= i < es.len() ==> (#[trigger] es[i]).0.len() == w
}

/// The smallest count is at least `k` (with no group, the smallest count is 0).
pub open spec fn k_anonymous_spec(es: FreqModel, k: int) -> bool {
    &&& forall|i: int| 0 <= i < es.len() ==> (#[trigger] es[i]).1 >= k
    &&& (es.len() > 0 || k <= 0)
}

/// A frequency table: the groups of rows that share their cells on the quasi-identifiers.
pub struct FrequencyTable {
    pub qis: QuasiIdentifiers,
    pub entries: Vec<FreqEntry>,
}

impl FrequencyTable {
    /// Every group has one cell per quasi-identifier.
    pub open spec fn wf(&self) -> bool {
        keys_of_width(freq_view(self.entries@), self.qis.0@.len() as int)
    }

    /// Whether the smallest count is at least `k` (see `k_anonymous_spec`).
    pub fn is_k_anonymous(&self, k: u32) -> (r: bool)
        ensures
            r == k_anonymous_spec(freq_view(self.entries@), k as int),
    {
        let ghost fs = freq_view(self.entries@);
        if self.entries.len() == 0 {
            return k == 0;
        }
        let mut min_count: u64 = self.entries[0].count;
        assert(fs[0].1 == min_count);
        for i in 1..self.entries.len()
            invariant
                fs == freq_view(self.entries@),
                1 <= self.entries@.len(),
                exists|j: int| 0 <= j < i && fs[j].1 == min_count,
                forall|j: int| 0 <= j < i ==> (#[trigger] fs[j]).1 >= min_count,
        {
            assert(fs[i as int].1 == self.entries@[i as int].count);
            if self.entries[i].count < min_count {
                min_count = self.entries[i].count;
            }
        }
        assert(fs[0].1 == self.entries@[0].count);
        min_count >= k as u64
    }
}

impl Default for FrequencyTable {
    fn default() -> (r: Self)
        ensures
            r.qis.0@.len() == 0,
            r.entries@.len() == 0,
    {
        FrequencyTable { qis: QuasiIdentifiers(Vec::new()), entries: Vec::new() }
    }
}

/// Index of the first group whose cells are `key`.
fn find_entry(es: &Vec<FreqEntry>, key: &Vec<Option<GenValue>>) -> (r: Option<usize>)
    ensures
        r matches Some(j) ==> j < es@.len() && find_key_from(freq_view(es@), key_view(key@), 0) == Some(j as int),
        r is None ==> find_key_from(freq_view(es@), key_view(key@), 0) is None,
{
    let ghost fs = freq_view(es@);
    let mut i: usize = 0;
    while i < es.len()
        invariant
            fs == freq_view(es@),
            0 <= i <= es@.len(),
            find_key_from(fs, key_view(key@), 0) == find_key_from(fs, key_view(key@), i as int),
        decreases es@.len() - i,
    {
        assert(fs[i as int].0 == key_view(es@[i as int].key@));
        if same_key(&es[i].key, key) {
            return Some(i);
        }
        i += 1;
    }
    None
}

/// Merges the groups by cells, summing their counts (see `group_sum`).
pub fn group_sum_exec(es: &Vec<FreqEntry>) -> (r: Vec<FreqEntry>)
    ensures
        freq_view(r@) == group_sum(freq_view(es@)),
{
    let ghost fs = freq_view(es@);
    let mut out: Vec<FreqEntry> = Vec::new();
    for i in 0..es.len()
        invariant
            fs == freq_view(es@),
            freq_view(out@) == group_sum_upto(fs, i as int),
    {
        let ghost g = freq_view(out@);
        assert(fs[i as int] == entry_view(es@[i as int]));
        proof {
            lemma_find_key_from(g, fs[i as int].0, 0);
        }
        match find_entry(&out, &es[i].key) {
            Some(j) => {
                let c = out[j].count;
                let add = es[i].count;
                let total: u64 = if c > u64::MAX - add {
                    u64::MAX
                } else {
                    c + add
                };
                let key = copy_key(&es[i].key);
                out.set(j, FreqEntry { key, count: total });
                assert(freq_view(out@) =~= g.update(j as int, (fs[i as int].0, sat_add(g[j as int].1, fs[i as int].1))));
            },
            None => {
                let key = copy_key(&es[i].key);
                out.push(FreqEntry { key, count: es[i].count });
                assert(freq_view(out@) =~= g.push(fs[i as int]));
            },
        }
    }
    assert(fs.len() == es@.len());
    out
}

/// Generalizing keeps every group's width.
pub proof fn lemma_gen_entries_width(es: FreqModel, pos: int, edges: Seq<(GenKey, GenKey)>, w: int)
    requires
        keys_of_width(es, w),
        0 <= pos < w,
    ensures
        keys_of_width(gen_entries(es, pos, edges), w),
    decreases es.len(),
{
    if es.len() > 0 {
        assert(keys_of_width(es.drop_last(), w)) by {
            assert forall|i: int| 0 <= i < es.drop_last().len() implies (#[trigger] es.drop_last()[i]).0.len()
                == w by {
                assert(es.drop_last()[i] == es[i]);
            }
        }
        lemma_gen_entries_width(es.drop_last(), pos, edges, w);
        assert(es.last() == es[es.len() - 1]);
        let prev = gen_entries(es.drop_last(), pos, edges);
        let e = es.last();
        let ts = gen_step(edges, e.0[pos]);
        let tail = Seq::new(ts.len(), |j: int| (e.0.update(pos, ts[j]), e.1));
        assert(gen_entries(es, pos, edges) == prev + tail);
        assert forall|i: int| 0 <= i < (prev + tail).len() implies (#[trigger] (prev + tail)[i]).0.len() == w by {
            if i >= prev.len() {
                assert((prev + tail)[i] == tail[i - prev.len()]);
                assert(e.0.len() == w);
            }
        }
    }
}

/// Generalizing `n` times keeps every group's width.
pub proof fn lemma_gen_times_width(es: FreqModel, pos: int, edges: Seq<(GenKey, GenKey)>, n: nat, w: int)
    requires
        keys_of_width(es, w),
        0 <= pos < w,
    ensures
        keys_of_width(gen_times(es, pos, edges, n), w),
    decreases n,
{
    if n > 0 {
        lemma_gen_times_width(es, pos, edges, (n - 1) as nat, w);
        lemma_gen_entries_width(gen_times(es, pos, edges, (n - 1) as nat), pos, edges, w);
    }
}

/// Merging keeps every group's width.
pub proof fn lemma_group_sum_width(es: FreqModel, i: int, w: int)
    requires
        keys_of_width(es, w),
        i <= es.len(),
    ensures
        keys_of_width(group_sum_upto(es, i), w),
    decreases i,
{
    if i > 0 {
        lemma_group_sum_width(es, i - 1, w);
        lemma_find_key_from(group_sum_upto(es, i - 1), es[i - 1].0, 0);
    }
}

/// Generalizes each group one step on the cell at `pos` (see `gen_entries`).
pub fn gen_entries_exec(es: &Vec<FreqEntry>, pos: usize, table: &DimensionTable) -> (r: Vec<FreqEntry>)
    requires
        forall|i: int| 0 <= i < es@.len() ==> pos < (#[trigger] es@[i]).key@.len(),
    ensures
        freq_view(r@) == gen_entries(freq_view(es@), pos as int, edges_view(table.edges@)),
{
    let ghost fs = freq_view(es@);
    let ghost ev = edges_view(table.edges@);
    let mut out: Vec<FreqEntry> = Vec::new();
    for i in 0..es.len()
        invariant
            fs == freq_view(es@),
            ev == edges_view(table.edges@),
            forall|q: int| 0 <= q < es@.len() ==> pos < (#[trigger] es@[q]).key@.len(),
            freq_view(out@) == gen_entries(fs.take(i as int), pos as int, ev),
    {
        let e = &es[i];
        assert(fs[i as int] == entry_view(es@[i as int]));
        assert(fs.take(i as int + 1).drop_last() =~= fs.take(i as int));
        assert(fs.take(i as int + 1).last() == fs[i as int]);
        assert(key_view(e.key@)[pos as int] == opt_key(e.key@[pos as int]));
        let ts = table.step(&e.key[pos]);
        let ghost base = freq_view(out@);
        let ghost tv = key_view(ts@);
        for j in 0..ts.len()
            invariant
                pos < e.key@.len(),
                tv == key_view(ts@),
                freq_view(out@) == base + Seq::new(
                    j as nat,
                    |q: int| (key_view(e.key@).update(pos as int, tv[q]), e.count as int),
                ),
        {
            let mut k = copy_key(&e.key);
            let ghost kv = key_view(k@);
            k.set(pos, copy_opt_value(&ts[j]));
            assert(key_view(k@) =~= kv.update(pos as int, tv[j as int]));
            let ghost before = out@;
            out.push(FreqEntry { key: k, count: e.count });
            assert(freq_view(out@) =~= freq_view(before).push(entry_view(out@[before.len() as int])));
            assert(freq_view(out@) =~= base + Seq::new(
                j as nat + 1,
                |q: int| (key_view(e.key@).update(pos as int, tv[q]), e.count as int),
            ));
        }
        assert(freq_view(out@) =~= gen_entries(fs.take(i as int + 1), pos as int, ev));
    }
    assert(fs.take(es@.len() as int) =~= fs);
    out
}

/// Position of the first quasi-identifier at or after `i` whose working
/// column is named `name`.
pub open spec fn att_position(qis: Seq<QuasiIdentifier>, name: Seq<char>, i: int) -> Option<int>
    decreases qis.len() - i,
{
    if 0 <= i < qis.len() {
        if qis[i].incognito_colname@ == name {
            Some(i)
        } else {
            att_position(qis, name, i + 1)
        }
    } else {
        None
    }
}

pub proof fn lemma_att_position(qis: Seq<QuasiIdentifier>, name: Seq<char>, a: int)
    requires
        0 <= a,
    ensures
        att_position(qis, name, a) matches Some(j) ==> a <= j < qis.len() && qis[j].incognito_colname@ == name,
    decreases qis.len() - a,
{
    if a < qis.len() && qis[a].incognito_colname@ != name {
        lemma_att_position(qis, name, a + 1);
    }
}

/// Position of the first quasi-identifier whose working column is named `name`.
fn find_att(qis: &Vec<QuasiIdentifier>, name: &String) -> (r: Option<usize>)
    ensures
        r matches Some(j) ==> j < qis@.len() && att_position(qis@, name@, 0) == Some(j as int),
        r is None ==> att_position(qis@, name@, 0) is None,
{
    let mut i: usize = 0;
    while i < qis.len()
        invariant
            0 <= i <= qis@.len(),
            att_position(qis@, name@, 0) == att_position(qis@, name@, i as int),
        decreases qis@.len() - i,
    {
        if qis[i].incognito_colname == *name {
            return Some(i);
        }
        i += 1;
    }
    None
}

/// A copy of a list of quasi-identifiers.
pub fn copy_qis(q: &Vec<QuasiIdentifier>) -> (r: Vec<QuasiIdentifier>)
    ensures
        r@ == q@,
{
    let mut r: Vec<QuasiIdentifier> = Vec::new();
    for i in 0..q.len()
        invariant
            r@ == q@.take(i as int),
    {
        r.push(q[i].copy());
        assert(r@ =~= q@.take(i as int + 1));
    }
    assert(q@.take(q@.len() as int) =~= q@);
    r
}

/// The height stored for quasi-identifier `a` in a node's generalization
/// levels (the first entry that is `a` in every field at or after `i`).
pub open spec fn root_height(root: Seq<(QuasiIdentifier, usize)>, a: QuasiIdentifier, i: int) -> Option<int>
    decreases root.len() - i,
{
    if 0 <= i < root.len() {
        if same_qi_key(root[i].0, a) {
            Some(root[i].1 as int)
        } else {
            root_height(root, a, i + 1)
        }
    } else {
        None
    }
}

/// The height stored for `a` (see `root_height`).
fn root_height_exec(root: &Vec<(QuasiIdentifier, usize)>, a: &QuasiIdentifier) -> (r: Option<usize>)
    ensures
        r matches Some(h) ==> root_height(root@, *a, 0) == Some(h as int),
        r is None ==> root_height(root@, *a, 0) is None,
{
    let mut i: usize = 0;
    while i < root.len()
        invariant
            0 <= i <= root@.len(),
            root_height(root@, *a, 0) == root_height(root@, *a, i as int),
        decreases root@.len() - i,
    {
        if root[i].0.same(a) && root[i].0.incognito_colname == a.incognito_colname {
            return Some(root[i].1);
        }
        i += 1;
    }
    None
}

/// The frequency table of `es` one step up on `changed`: each group
/// generalized on `changed`'s cell, then merged (see `rollup_from_parent`).
pub open spec fn rollup_parent_spec(
    qis: Seq<QuasiIdentifier>,
    changed: QuasiIdentifier,
    es: FreqModel,
    dims: DimensionTables,
) -> Result<FreqModel, AlgorithmError> {
    if !has_table(dims, changed) {
        Err(AlgorithmError::UnknownQuasiIdentifier(changed.column_name))
    } else {
        match att_position(qis, changed.incognito_colname@, 0) {
            None => Err(AlgorithmError::ColumnNotFound(changed.incognito_colname)),
            Some(p) => Ok(group_sum(gen_entries(es, p, table_of(dims, changed)))),
        }
    }
}

/// The groups of `es` generalized, quasi-identifier by quasi-identifier
/// among `attrs[..j]`, to the heights `root` gives them; the cells of the
/// groups are those of `cols`, found by working column name.
pub open spec fn rollup_upto(
    attrs: Seq<QuasiIdentifier>,
    cols: Seq<QuasiIdentifier>,
    root: Seq<(QuasiIdentifier, usize)>,
    es: FreqModel,
    dims: DimensionTables,
    j: int,
) -> Result<FreqModel, AlgorithmError>
    decreases j,
{
    if j <= 0 {
        Ok(es)
    } else {
        match rollup_upto(attrs, cols, root, es, dims, j - 1) {
            Err(e) => Err(e),
            Ok(f) => {
                let a = attrs[j - 1];
                match root_height(root, a, 0) {
                    None => Err(AlgorithmError::UnknownQuasiIdentifier(a.column_name)),
                    Some(h) => if h == 0 {
                        Ok(f)
                    } else if !has_table(dims, a) {
                        Err(AlgorithmError::UnknownQuasiIdentifier(a.column_name))
                    } else {
                        match att_position(cols, a.incognito_colname@, 0) {
                            None => Err(AlgorithmError::ColumnNotFound(a.incognito_colname)),
                            Some(p) => Ok(gen_times(f, p, table_of(dims, a), h as nat)),
                        }
                    },
                }
            },
        }
    }
}

/// The frequency table of `es` at the heights `root` gives: every
/// quasi-identifier generalized, then the groups merged.
pub open spec fn rollup_spec(
    qis: Seq<QuasiIdentifier>,
    root: Seq<(QuasiIdentifier, usize)>,
    es: FreqModel,
    dims: DimensionTables,
) -> Result<FreqModel, AlgorithmError> {
    match rollup_upto(qis, qis, root, es, dims, qis.len() as int) {
        Err(e) => Err(e),
        Ok(f) => Ok(group_sum(f)),
    }
}

/// Generalizes each group `n` steps on the cell at `pos` (see `gen_times`).
fn gen_times_exec(es: Vec<FreqEntry>, pos: usize, table: &DimensionTable, n: usize, Ghost(w): Ghost<int>) -> (r: Vec<FreqEntry>)
    requires
        keys_of_width(freq_view(es@), w),
        pos < w,
    ensures
        freq_view(r@) == gen_times(freq_view(es@), pos as int, edges_view(table.edges@), n as nat),
        keys_of_width(freq_view(r@), w),
{
    let mut cur = es;
    for t in 0..n
        invariant
            pos < w,
            keys_of_width(freq_view(cur@), w),
            freq_view(cur@) == gen_times(freq_view(es@), pos as int, edges_view(table.edges@), t as nat),
    {
        assert forall|i: int| 0 <= i < cur@.len() implies pos < (#[trigger] cur@[i]).key@.len() by {
            assert(freq_view(cur@)[i].0 == key_view(cur@[i].key@));
        }
        let next = gen_entries_exec(&cur, pos, table);
        proof {
            lemma_gen_entries_width(freq_view(cur@), pos as int, edges_view(table.edges@), w);
        }
        cur = next;
    }
    cur
}

/// Merging keeps every group's width (the whole list).
pub proof fn lemma_group_sum_all_width(es: FreqModel, w: int)
    requires
        keys_of_width(es, w),
    ensures
        keys_of_width(group_sum(es), w),
{
    lemma_group_sum_width(es, es.len() as int, w);
}

/// A second handle on the same shared value (std's `Arc::clone`).
#[verifier::external_body]
fn share<T>(a: &Arc<T>) -> (r: Arc<T>)
    ensures
        r == *a,
{
    a.clone()
}

/// Whether two quasi-identifiers are the same in every field.
pub fn same_qi_key_exec(a: &QuasiIdentifier, b: &QuasiIdentifier) -> (r: bool)
    ensures
        r == same_qi_key(*a, *b),
{
    a.same(b) && a.incognito_colname == b.incognito_colname
}

/// A copy of a node's generalization levels.
pub fn copy_root(root: &Vec<(QuasiIdentifier, usize)>) -> (r: Vec<(QuasiIdentifier, usize)>)
    ensures
        r@ == root@,
{
    let mut r: Vec<(QuasiIdentifier, usize)> = Vec::new();
    for i in 0..root.len()
        invariant
            r@ == root@.take(i as int),
    {
        r.push((root[i].0.copy(), root[i].1));
        assert(r@ =~= root@.take(i as int + 1));
    }
    assert(root@.take(root@.len() as int) =~= root@);
    r
}

/// Position of the first entry at or after `i` that is `a` in every field.
pub open spec fn root_position(root: Seq<(QuasiIdentifier, usize)>, a: QuasiIdentifier, i: int) -> Option<int>
    decreases root.len() - i,
{
    if 0 <= i < root.len() {
        if same_qi_key(root[i].0, a) {
            Some(i)
        } else {
            root_position(root, a, i + 1)
        }
    } else {
        None
    }
}

pub proof fn lemma_root_position(root: Seq<(QuasiIdentifier, usize)>, a: QuasiIdentifier, i: int)
    requires
        0 <= i,
    ensures
        root_position(root, a, i) matches Some(j) ==> i <= j < root.len() && same_qi_key(root[j].0, a)
            && root_height(root, a, i) == Some(root[j].1 as int),
        root_position(root, a, i) is None <==> root_height(root, a, i) is None,
    decreases root.len() - i,
{
    if 0 <= i < root.len() && !same_qi_key(root[i].0, a) {
        lemma_root_position(root, a, i + 1);
    }
}

/// A node of the generalization lattice of a set of quasi-identifiers: the
/// level each of them is generalized to, the quasi-identifier last raised,
/// its frequency table once computed, and the node it was raised from.
pub struct LatticeEntry {
    pub attr: QuasiIdentifier,
    pub root: Vec<(QuasiIdentifier, usize)>,
    pub freq_table: Arc<FrequencyTable>,
    pub parent: Option<Arc<LatticeEntry>>,
}

impl LatticeEntry {
    /// A node at the levels `root`, with the first of `qis` as the one last
    /// raised, an empty frequency table and no parent.
    pub fn from_root(root: Vec<(QuasiIdentifier, usize)>, qis: &QuasiIdentifiers) -> (e: Self)
        requires
            qis.0@.len() > 0,
        ensures
            e.root@ == root@,
            e.attr == qis.0@[0],
            e.freq_table.entries@.len() == 0,
            e.freq_table.qis.0@.len() == 0,
            e.parent is None,
    {
        LatticeEntry {
            root,
            attr: qis.0[0].copy(),
            freq_table: Arc::new(FrequencyTable::default()),
            parent: None,
        }
    }

    /// A copy sharing the frequency table and the parent.
    pub fn copy(&self) -> (e: Self)
        ensures
            e.attr == self.attr,
            e.root@ == self.root@,
            e.freq_table == self.freq_table,
            e.parent == self.parent,
    {
        LatticeEntry {
            attr: self.attr.copy(),
            root: copy_root(&self.root),
            freq_table: share(&self.freq_table),
            parent: match &self.parent {
                Some(p) => Some(share(p)),
                None => None,
            },
        }
    }

    /// The node one level above `parent` on `attr`, raised from it, with an
    /// empty frequency table.
    pub fn from_parent(parent: &Self, attr: QuasiIdentifier) -> (e: Self)
        requires
            root_height(parent.root@, attr, 0) matches Some(h) && h < usize::MAX,
        ensures
            e.attr == attr,
            e.root@ == parent.root@.update(
                root_position(parent.root@, attr, 0)->0,
                (parent.root@[root_position(parent.root@, attr, 0)->0].0, (root_height(parent.root@, attr, 0)->0 + 1) as usize),
            ),
            e.freq_table.entries@.len() == 0,
            e.parent matches Some(p) && p.attr == parent.attr && p.root@ == parent.root@ && p.freq_table == parent.freq_table,
    {
        proof {
            lemma_root_position(parent.root@, attr, 0);
        }
        let mut root = copy_root(&parent.root);
        let mut i: usize = 0;
        while i < root.len() && !same_qi_key_exec(&root[i].0, &attr)
            invariant
                root@ == parent.root@,
                0 <= i <= root@.len(),
                root_position(parent.root@, attr, 0) == root_position(parent.root@, attr, i as int),
            decreases root@.len() - i,
        {
            i += 1;
        }
        proof {
            lemma_root_position(parent.root@, attr, i as int);
        }
        let key = root[i].0.copy();
        let h = root[i].1;
        root.set(i, (key, h + 1));
        LatticeEntry { attr, root, freq_table: Arc::new(FrequencyTable::default()), parent: Some(Arc::new(parent.copy())) }
    }

    /// Stores the node's frequency table.
    pub fn set_freq_table(&mut self, freq_table: Arc<FrequencyTable>)
        ensures
            final(self).freq_table == freq_table,
            final(self).attr == old(self).attr,
            final(self).root@ == old(self).root@,
            final(self).parent == old(self).parent,
    {
        self.freq_table = freq_table;
    }
}

/// The height limit stored for `a` among `depths[..i]` (the last entry that
/// is the same quasi-identifier, as a map keyed by `same_qi` keeps it).
pub open spec fn depth_upto(depths: Seq<(QuasiIdentifier, usize)>, a: QuasiIdentifier, i: int) -> Option<int>
    decreases i,
{
    if i <= 0 {
        None
    } else if same_qi(depths[i - 1].0, a) {
        Some(depths[i - 1].1 as int)
    } else {
        depth_upto(depths, a, i - 1)
    }
}

/// The height limit stored for `a`.
pub open spec fn depth_of(depths: Seq<(QuasiIdentifier, usize)>, a: QuasiIdentifier) -> Option<int> {
    depth_upto(depths, a, depths.len() as int)
}

/// The height limit stored for `a` (see `depth_of`).
fn depth_of_exec(depths: &Vec<(QuasiIdentifier, usize)>, a: &QuasiIdentifier) -> (r: Option<usize>)
    ensures
        r matches Some(d) ==> depth_of(depths@, *a) == Some(d as int),
        r is None ==> depth_of(depths@, *a) is None,
{
    let mut i = depths.len();
    while i > 0
        invariant
            i <= depths@.len(),
            depth_of(depths@, *a) == depth_upto(depths@, *a, i as int),
        decreases i,
    {
        if depths[i - 1].0.same(a) {
            return Some(depths[i - 1].1);
        }
        i -= 1;
    }
    None
}

/// Two nodes are the same when they list the same quasi-identifiers at the same heights.
pub open spec fn same_root(a: Seq<(QuasiIdentifier, usize)>, b: Seq<(QuasiIdentifier, usize)>) -> bool {
    &&& a.len() == b.len()
    &&& forall|i: int| 0 <= i < a.len() ==> same_qi(#[trigger] a[i].0, b[i].0) && a[i].1 == b[i].1
}

/// Whether two nodes are the same (see `same_root`).
#[verifier::spinoff_prover]
pub fn same_root_exec(a: &Vec<(QuasiIdentifier, usize)>, b: &Vec<(QuasiIdentifier, usize)>) -> (r: bool)
    ensures
        r == same_root(a@, b@),
{
    if a.len() != b.len() {
        return false;
    }
    for i in 0..a.len()
        invariant
            a@.len() == b@.len(),
            forall|j: int| 0 <= j < i ==> same_qi(#[trigger] a@[j].0, b@[j].0) && a@[j].1 == b@[j].1,
    {
        if !(a[i].0.same(&b[i].0) && a[i].1 == b[i].1) {
            return false;
        }
    }
    true
}

/// The node `root` raised one level on `a`.
pub open spec fn raised(root: Seq<(QuasiIdentifier, usize)>, a: QuasiIdentifier) -> Seq<(QuasiIdentifier, usize)> {
    let p = root_position(root, a, 0)->0;
    root.update(p, (root[p].0, (root_height(root, a, 0)->0 + 1) as usize))
}

/// The nodes one level above `root` among its first `i` quasi-identifiers, in
/// order, each with the quasi-identifier raised: one per quasi-identifier
/// below its height limit.
pub open spec fn generalizations_upto(root: Seq<(QuasiIdentifier, usize)>, depths: Seq<(QuasiIdentifier, usize)>, i: int) -> Seq<
    (Seq<(QuasiIdentifier, usize)>, QuasiIdentifier),
>
    decreases i,
{
    if i <= 0 {
        Seq::empty()
    } else {
        let g = generalizations_upto(root, depths, i - 1);
        let a = root[i - 1].0;
        match depth_of(depths, a) {
            Some(d) => if root_height(root, a, 0)->0 < d {
                g.push((raised(root, a), a))
            } else {
                g
            },
            None => g,
        }
    }
}

/// A key listed in `root` is found there.
pub proof fn lemma_root_position_found(root: Seq<(QuasiIdentifier, usize)>, a: QuasiIdentifier, i: int, j: int)
    requires
        0 <= i <= j < root.len(),
        same_qi_key(root[j].0, a),
    ensures
        root_position(root, a, i) is Some,
        root_height(root, a, i) is Some,
    decreases j - i,
{
    lemma_root_position(root, a, i);
    if !same_qi_key(root[i].0, a) {
        lemma_root_position_found(root, a, i + 1, j);
    }
}

/// The levels `hs` given to the quasi-identifiers `keys`, in order.
pub open spec fn zip_root(keys: Seq<QuasiIdentifier>, hs: Seq<usize>) -> Seq<(QuasiIdentifier, usize)> {
    Seq::new(keys.len(), |i: int| (keys[i], hs[i]))
}

/// The quasi-identifiers of a node, in order.
pub open spec fn root_keys(root: Seq<(QuasiIdentifier, usize)>) -> Seq<QuasiIdentifier> {
    Seq::new(root.len(), |i: int| root[i].0)
}

/// The heights `lo..=hi`.
pub open spec fn height_seq(lo: int, hi: int) -> Seq<usize> {
    Seq::new(if lo <= hi { (hi - lo + 1) as nat } else { 0 }, |j: int| (lo + j) as usize)
}

/// The heights from each of `root`'s up to its height limit.
pub open spec fn search_ranges(root: Seq<(QuasiIdentifier, usize)>, depths: Seq<(QuasiIdentifier, usize)>) -> Seq<Seq<usize>> {
    Seq::new(root.len(), |i: int| height_seq(root[i].1 as int, depth_of(depths, root[i].0)->0))
}

/// Every choice of a product has one item per list.
pub proof fn lemma_cartesian_len(rs: Seq<Seq<usize>>)
    ensures
        forall|i: int| 0 <= i < cartesian(rs).len() ==> (#[trigger] cartesian(rs)[i]).len() == rs.len(),
    decreases rs.len(),
{
    if rs.len() > 0 {
        lemma_cartesian_len(rs.drop_first());
        lemma_prefix_all_len(rs[0], cartesian(rs.drop_first()), rs.len() - 1);
    }
}

pub proof fn lemma_prefix_all_len(xs: Seq<usize>, rest: Seq<Seq<usize>>, n: int)
    requires
        forall|i: int| 0 <= i < rest.len() ==> (#[trigger] rest[i]).len() == n,
    ensures
        forall|i: int| 0 <= i < prefix_all(xs, rest).len() ==> (#[trigger] prefix_all(xs, rest)[i]).len() == n + 1,
    decreases xs.len(),
{
    if xs.len() > 0 {
        lemma_prefix_all_len(xs.drop_last(), rest, n);
        let p = prefix_all(xs.drop_last(), rest);
        let t = Seq::new(rest.len(), |j: int| seq![xs.last()] + rest[j]);
        assert(prefix_all(xs, rest) == p + t);
        assert forall|i: int| 0 <= i < (p + t).len() implies (#[trigger] (p + t)[i]).len() == n + 1 by {
            if i >= p.len() {
                assert((p + t)[i] == t[i - p.len()]);
            }
        }
    }
}

/// Every quasi-identifier of `root` has a height limit.
pub open spec fn depths_cover(root: Seq<(QuasiIdentifier, usize)>, depths: Seq<(QuasiIdentifier, usize)>) -> bool {
    forall|i: int| 0 <= i < root.len() ==> (#[trigger] depth_of(depths, root[i].0)) is Some
}

/// The lists of a list of vectors.
pub open spec fn vecs_view(v: Seq<Vec<usize>>) -> Seq<Seq<usize>> {
    Seq::new(v.len(), |i: int| v[i]@)
}

/// Every choice of one item from each list `xs[..]` followed by one of `rest`.
pub open spec fn prefix_all(xs: Seq<usize>, rest: Seq<Seq<usize>>) -> Seq<Seq<usize>>
    decreases xs.len(),
{
    if xs.len() == 0 {
        Seq::empty()
    } else {
        prefix_all(xs.drop_last(), rest) + Seq::new(rest.len(), |j: int| seq![xs.last()] + rest[j])
    }
}

/// The cartesian product of the lists, in lexicographic order (the last
/// position varying fastest); one empty choice when there is no list.
pub open spec fn cartesian(rs: Seq<Seq<usize>>) -> Seq<Seq<usize>>
    decreases rs.len(),
{
    if rs.len() == 0 {
        seq![Seq::empty()]
    } else {
        prefix_all(rs[0], cartesian(rs.drop_first()))
    }
}

/// Lexicographic order on lists of heights.
pub open spec fn heights_lt(a: Seq<usize>, b: Seq<usize>) -> bool
    decreases a.len(),
{
    if a.len() == 0 || b.len() == 0 {
        false
    } else if a[0] < b[0] {
        true
    } else if a[0] == b[0] {
        heights_lt(a.drop_first(), b.drop_first())
    } else {
        false
    }
}

pub proof fn lemma_heights_lt_asym(a: Seq<usize>, b: Seq<usize>)
    ensures
        heights_lt(a, b) ==> !heights_lt(b, a),
        !heights_lt(a, a),
    decreases a.len(),
{
    if a.len() > 0 && b.len() > 0 {
        lemma_heights_lt_asym(a.drop_first(), b.drop_first());
    }
    if a.len() > 0 {
        lemma_heights_lt_asym(a.drop_first(), a.drop_first());
    }
}

/// Lists that agree before `i` and are smaller at `i` come first.
pub proof fn lemma_heights_lt_at(a: Seq<usize>, b: Seq<usize>, i: int)
    requires
        0 <= i < a.len(),
        a.len() == b.len(),
        forall|t: int| 0 <= t < i ==> a[t] == b[t],
        a[i] < b[i],
    ensures
        heights_lt(a, b),
    decreases i,
{
    if i > 0 {
        lemma_heights_lt_at(a.drop_first(), b.drop_first(), i - 1);
    }
}

/// Where each choice of `prefix_all(xs, rest)` sits.
pub proof fn lemma_prefix_all_index(xs: Seq<usize>, rest: Seq<Seq<usize>>)
    requires
        rest.len() > 0,
    ensures
        prefix_all(xs, rest).len() == xs.len() * rest.len(),
        forall|a: int, b: int|
            0 <= a < xs.len() && 0 <= b < rest.len() ==> #[trigger] prefix_all(xs, rest)[a * rest.len() + b] == seq![
                xs[a],
            ] + rest[b],
    decreases xs.len(),
{
    let n = rest.len() as int;
    if xs.len() > 0 {
        lemma_prefix_all_index(xs.drop_last(), rest);
        let p = prefix_all(xs.drop_last(), rest);
        let t = Seq::new(rest.len(), |j: int| seq![xs.last()] + rest[j]);
        assert(prefix_all(xs, rest) == p + t);
        assert(xs.len() * n == (xs.len() - 1) * n + n) by (nonlinear_arith);
        assert forall|a: int, b: int| 0 <= a < xs.len() && 0 <= b < rest.len() implies #[trigger] prefix_all(
            xs,
            rest,
        )[a * rest.len() + b] == seq![xs[a]] + rest[b] by {
            if a < xs.len() - 1 {
                assert(a * n + b < (xs.len() - 1) * n) by (nonlinear_arith)
                    requires
                        0 <= a,
                        a + 1 <= xs.len() - 1,
                        0 <= b < n,
                ;
                assert(a * n + b >= 0) by (nonlinear_arith)
                    requires
                        a >= 0,
                        b >= 0,
                        n >= 0,
                ;
                assert(xs.drop_last()[a] == xs[a]);
            } else {
                assert(a * n == (xs.len() - 1) * n);
            }
        }
    } else {
        assert(xs.len() * n == 0) by (nonlinear_arith)
            requires
                xs.len() == 0,
        ;
    }
}

/// Each list is strictly increasing.
pub open spec fn ranges_increasing(rs: Seq<Seq<usize>>) -> bool {
    forall|i: int, a: int, b: int| 0 <= i < rs.len() && 0 <= a < b < rs[i].len() ==> #[trigger] rs[i][a] < #[trigger] rs[i][b]
}

/// Splitting an index of a product block.
pub proof fn lemma_div_mod_split(j: int, n: int)
    requires
        n > 0,
        j >= 0,
    ensures
        j == (j / n) * n + j % n,
        0 <= j % n < n,
        j / n >= 0,
{
    assert(j == (j / n) * n + j % n && 0 <= j % n < n && j / n >= 0) by (nonlinear_arith)
        requires
            n > 0,
            j >= 0,
    ;
}

/// The cartesian product of increasing lists is in strictly increasing lexicographic order.
pub proof fn lemma_cartesian_sorted(rs: Seq<Seq<usize>>)
    requires
        ranges_increasing(rs),
    ensures
        forall|j1: int, j2: int|
            0 <= j1 < j2 < cartesian(rs).len() ==> heights_lt(#[trigger] cartesian(rs)[j1], #[trigger] cartesian(rs)[j2]),
    decreases rs.len(),
{
    if rs.len() > 0 {
        let rest = rs.drop_first();
        assert(ranges_increasing(rest)) by {
            assert forall|i: int, a: int, b: int| 0 <= i < rest.len() && 0 <= a < b < rest[i].len() implies #[trigger] rest[i][a]
                < #[trigger] rest[i][b] by {
                assert(rest[i] == rs[i + 1]);
            }
        }
        lemma_cartesian_sorted(rest);
        let c2 = cartesian(rest);
        let c = cartesian(rs);
        if c2.len() > 0 {
            lemma_prefix_all_index(rs[0], c2);
            let n = c2.len() as int;
            assert forall|j1: int, j2: int| 0 <= j1 < j2 < c.len() implies heights_lt(#[trigger] c[j1], #[trigger] c[j2]) by {
                lemma_div_mod_split(j1, n);
                lemma_div_mod_split(j2, n);
                let a1 = j1 / n;
                let b1 = j1 % n;
                let a2 = j2 / n;
                let b2 = j2 % n;
                assert(a1 < rs[0].len() && a2 < rs[0].len()) by {
                    if a1 >= rs[0].len() {
                        assert(a1 * n >= rs[0].len() * n) by (nonlinear_arith)
                            requires
                                a1 >= rs[0].len(),
                                n > 0,
                        ;
                    }
                    if a2 >= rs[0].len() {
                        assert(a2 * n >= rs[0].len() * n) by (nonlinear_arith)
                            requires
                                a2 >= rs[0].len(),
                                n > 0,
                        ;
                    }
                }
                assert(a1 <= a2) by {
                    if a1 > a2 {
                        assert(a1 * n >= a2 * n + n) by (nonlinear_arith)
                            requires
                                a1 >= a2 + 1,
                                n > 0,
                        ;
                    }
                }
                assert(c[j1] == seq![rs[0][a1]] + c2[b1]);
                assert(c[j2] == seq![rs[0][a2]] + c2[b2]);
                assert((seq![rs[0][a1]] + c2[b1]).drop_first() == c2[b1]);
                assert((seq![rs[0][a2]] + c2[b2]).drop_first() == c2[b2]);
                if a1 < a2 {
                    assert(rs[0][a1] < rs[0][a2]);
                } else {
                    assert(b1 < b2);
                    assert(heights_lt(c2[b1], c2[b2]));
                }
            }
        } else {
            assert(c.len() == 0) by {
                assert(prefix_all(rs[0], c2).len() == 0) by {
                    lemma_prefix_all_empty(rs[0], c2);
                }
            }
        }
    }
}

pub proof fn lemma_prefix_all_empty(xs: Seq<usize>, rest: Seq<Seq<usize>>)
    requires
        rest.len() == 0,
    ensures
        prefix_all(xs, rest).len() == 0,
    decreases xs.len(),
{
    if xs.len() > 0 {
        lemma_prefix_all_empty(xs.drop_last(), rest);
    }
}

/// A choice of one item from each list is in the cartesian product.
pub proof fn lemma_cartesian_contains(rs: Seq<Seq<usize>>, hs: Seq<usize>)
    requires
        hs.len() == rs.len(),
        forall|i: int| 0 <= i < rs.len() ==> #[trigger] rs[i].contains(hs[i]),
    ensures
        exists|j: int| 0 <= j < cartesian(rs).len() && #[trigger] cartesian(rs)[j] == hs,
    decreases rs.len(),
{
    if rs.len() == 0 {
        assert(hs =~= Seq::<usize>::empty());
        assert(cartesian(rs)[0] == hs);
    } else {
        let rest = rs.drop_first();
        let h2 = hs.drop_first();
        assert forall|i: int| 0 <= i < rest.len() implies #[trigger] rest[i].contains(h2[i]) by {
            assert(rs[i + 1].contains(hs[i + 1]));
        }
        lemma_cartesian_contains(rest, h2);
        let c2 = cartesian(rest);
        let b = choose|j: int| 0 <= j < c2.len() && #[trigger] c2[j] == h2;
        assert(rs[0].contains(hs[0]));
        let a = choose|a: int| 0 <= a < rs[0].len() && rs[0][a] == hs[0];
        lemma_prefix_all_index(rs[0], c2);
        let n = c2.len() as int;
        assert(a * n + b < rs[0].len() * n) by (nonlinear_arith)
            requires
                0 <= a,
                a + 1 <= rs[0].len(),
                0 <= b < n,
        ;
        assert(a * n + b >= 0) by (nonlinear_arith)
            requires
                a >= 0,
                b >= 0,
                n > 0,
        ;
        assert(cartesian(rs)[a * n + b] == seq![hs[0]] + h2);
        assert(seq![hs[0]] + h2 =~= hs);
    }
}

/// The cartesian product of `ranges` (itertools' `multi_cartesian_product`,
/// which yields the choices in lexicographic order, the last position varying
/// fastest, and a single empty choice when there is no range).
#[verifier::external_body]
fn multi_product(ranges: Vec<Vec<usize>>) -> (r: Vec<Vec<usize>>)
    ensures
        vecs_view(r@) == cartesian(vecs_view(ranges@)),
{
    ranges.into_iter().multi_cartesian_product().collect()
}

/// The heights `lo..=hi`.
fn height_range(lo: usize, hi: usize) -> (r: Vec<usize>)
    ensures
        r@ == height_seq(lo as int, hi as int),
{
    let mut r: Vec<usize> = Vec::new();
    if lo > hi {
        assert(r@ =~= height_seq(lo as int, hi as int));
        return r;
    }
    let mut h = lo;
    loop
        invariant
            lo <= h <= hi,
            r@ == Seq::new((h - lo) as nat, |j: int| (lo + j) as usize),
        decreases hi - h,
    {
        r.push(h);
        assert(r@ =~= Seq::new((h - lo + 1) as nat, |j: int| (lo + j) as usize));
        if h == hi {
            assert(r@ =~= height_seq(lo as int, hi as int));
            return r;
        }
        h += 1;
    }
}

/// Incognito full-domain k-anonymity algorithm.
#[derive(Default)]
pub struct Incognito {}

/// The dataset's `i`-th quasi-identifier is the first whose dimension table
/// cannot be built, for reason `e`.
pub open spec fn first_dim_failure(ds: Dataset, e: AlgorithmError, i: int) -> bool {
    &&& 0 <= i < ds.qis.0@.len()
    &&& forall|j: int| 0 <= j < i ==> (#[trigger] dim_table_spec(ds, ds.qis.0@[j])) is Ok
    &&& dim_table_spec(ds, ds.qis.0@[i]) == Err::<Seq<(GenKey, GenKey)>, AlgorithmError>(e)
}

impl Incognito {
    /// The dimension table of each of the dataset's quasi-identifiers, in
    /// order (see `dim_table_spec`); fails on the first one that cannot be built.
    #[verifier::spinoff_prover]
    pub fn generate_dimension_tables(dataset: &Dataset) -> (r: Result<DimensionTables, AlgorithmError>)
        ensures
            match r {
                Ok(d) => d.wf() && d.keys@ == dataset.qis.0@ && forall|i: int|
                    0 <= i < d.keys@.len() ==> dim_table_spec(*dataset, dataset.qis.0@[i]) == Ok::<
                        Seq<(GenKey, GenKey)>,
                        AlgorithmError,
                    >(edges_view(#[trigger] d.tables@[i].edges@)),
                Err(e) => exists|i: int| #[trigger] first_dim_failure(*dataset, e, i),
            },
    {
        let qis = &dataset.qis.0;
        let mut keys: Vec<QuasiIdentifier> = Vec::new();
        let mut tables: Vec<DimensionTable> = Vec::new();
        for i in 0..qis.len()
            invariant
                qis == &dataset.qis.0,
                keys@ == qis@.take(i as int),
                tables@.len() == i,
                forall|j: int|
                    0 <= j < i ==> dim_table_spec(*dataset, qis@[j]) == Ok::<Seq<(GenKey, GenKey)>, AlgorithmError>(
                        edges_view(#[trigger] tables@[j].edges@),
                    ),
        {
            let qi = &qis[i];
            let ghost sp = dim_table_spec(*dataset, *qi);
            let table = match Self::dimension_table_of(dataset, qi) {
                Ok(t) => t,
                Err(e) => {
                    assert forall|j: int| 0 <= j < i implies (#[trigger] dim_table_spec(
                        *dataset,
                        dataset.qis.0@[j],
                    )) is Ok by {
                        assert(dim_table_spec(*dataset, qis@[j]) == Ok::<Seq<(GenKey, GenKey)>, AlgorithmError>(
                            edges_view(tables@[j].edges@),
                        ));
                    }
                    assert(first_dim_failure(*dataset, e, i as int));
                    return Err(e);
                },
            };
            keys.push(qi.copy());
            tables.push(table);
            assert(keys@ =~= qis@.take(i as int + 1));
        }
        assert(qis@.take(qis@.len() as int) =~= qis@);
        Ok(DimensionTables { keys, tables })
    }

    /// The dimension table of `qi` (see `dim_table_spec`).
    fn dimension_table_of(dataset: &Dataset, qi: &QuasiIdentifier) -> (r: Result<DimensionTable, AlgorithmError>)
        ensures
            match dim_table_spec(*dataset, *qi) {
                Ok(t) => r matches Ok(d) && edges_view(d.edges@) == t,
                Err(e) => r == Err::<DimensionTable, AlgorithmError>(e),
            },
    {
        match &qi.qi_type {
            QIType::Numerical { .. } => match dataset.taxonomies.numerical(qi.column_name.as_str()) {
                None => Err(AlgorithmError::MissingTaxonomy(qi.column_name.clone())),
                Some(t) => match numerical_dimension_table(t) {
                    Some(d) => Ok(d),
                    None => Err(AlgorithmError::BrokenTaxonomy(qi.column_name.clone())),
                },
            },
            QIType::Categorical { .. } => match dataset.taxonomies.categorical(qi.column_name.as_str()) {
                None => Err(AlgorithmError::MissingTaxonomy(qi.column_name.clone())),
                Some(t) => Ok(categorical_dimension_table(t)),
            },
        }
    }
}


/// The positions as integers.
pub open spec fn usizes_to_ints(s: Seq<usize>) -> Seq<int> {
    Seq::new(s.len(), |i: int| s[i] as int)
}

/// Once the positions cannot be found, they stay so.
pub proof fn lemma_att_positions_err(qis: Seq<QuasiIdentifier>, subset: Seq<QuasiIdentifier>, j: int, m: int)
    requires
        j <= m,
        att_positions_upto(qis, subset, j) is Err,
    ensures
        att_positions_upto(qis, subset, m) == att_positions_upto(qis, subset, j),
    decreases m - j,
{
    if j < m {
        lemma_att_positions_err(qis, subset, j, m - 1);
    }
}

/// Once a roll-up step fails, the roll-up fails the same way.
pub proof fn lemma_rollup_err(
    attrs: Seq<QuasiIdentifier>,
    cols: Seq<QuasiIdentifier>,
    root: Seq<(QuasiIdentifier, usize)>,
    es: FreqModel,
    dims: DimensionTables,
    j: int,
    m: int,
)
    requires
        j <= m,
        rollup_upto(attrs, cols, root, es, dims, j) is Err,
    ensures
        rollup_upto(attrs, cols, root, es, dims, m) == rollup_upto(attrs, cols, root, es, dims, j),
    decreases m - j,
{
    if j < m {
        lemma_rollup_err(attrs, cols, root, es, dims, j, m - 1);
    }
}

/// The cells of `k` at positions `ps`, in that order.
pub open spec fn project_key(k: Seq<Option<GenKey>>, ps: Seq<int>) -> Seq<Option<GenKey>> {
    ps.map_values(|p: int| k[p])
}

/// Each group of `es` reduced to the cells at `ps`, with its count of rows.
pub open spec fn projected(es: FreqModel, ps: Seq<int>) -> FreqModel {
    Seq::new(es.len(), |i: int| (project_key(es[i].0, ps), es[i].1))
}

/// Positions, in `qis`, of the working columns of `subset` (first missing
/// one reported by name).
pub open spec fn att_positions_upto(qis: Seq<QuasiIdentifier>, subset: Seq<QuasiIdentifier>, j: int) -> Result<Seq<int>, AlgorithmError>
    decreases j,
{
    if j <= 0 {
        Ok(Seq::empty())
    } else {
        match att_positions_upto(qis, subset, j - 1) {
            Err(e) => Err(e),
            Ok(ps) => match att_position(qis, subset[j - 1].incognito_colname@, 0) {
                None => Err(AlgorithmError::ColumnNotFound(subset[j - 1].incognito_colname)),
                Some(p) => Ok(ps.push(p)),
            },
        }
    }
}

impl Incognito {
    /// The frequency table one step up from `parent_freq` on `changed_attr`
    /// (see `rollup_parent_spec`).
    pub fn rollup_from_parent(
        qis: &QuasiIdentifiers,
        changed_attr: &QuasiIdentifier,
        parent_freq: &FrequencyTable,
        dimension_tables: &DimensionTables,
    ) -> (r: Result<FrequencyTable, AlgorithmError>)
        requires
            parent_freq.wf(),
            parent_freq.qis.0@ == qis.0@,
            dimension_tables.wf(),
        ensures
            match rollup_parent_spec(qis.0@, *changed_attr, freq_view(parent_freq.entries@), *dimension_tables) {
                Ok(f) => r matches Ok(t) && t.qis.0@ == qis.0@ && freq_view(t.entries@) == f && t.wf(),
                Err(e) => r == Err::<FrequencyTable, AlgorithmError>(e),
            },
    {
        let table = match dimension_tables.get(changed_attr) {
            Some(t) => t,
            None => {
                return Err(AlgorithmError::UnknownQuasiIdentifier(changed_attr.column_name.clone()));
            },
        };
        let pos = match find_att(&qis.0, &changed_attr.incognito_colname) {
            Some(p) => p,
            None => {
                return Err(AlgorithmError::ColumnNotFound(changed_attr.incognito_colname.clone()));
            },
        };
        let ghost w = qis.0@.len() as int;
        assert forall|i: int| 0 <= i < parent_freq.entries@.len() implies pos < (
        #[trigger] parent_freq.entries@[i]).key@.len() by {
            assert(freq_view(parent_freq.entries@)[i].0 == key_view(parent_freq.entries@[i].key@));
        }
        let gen = gen_entries_exec(&parent_freq.entries, pos, table);
        let entries = group_sum_exec(&gen);
        proof {
            lemma_gen_entries_width(freq_view(parent_freq.entries@), pos as int, edges_view(table.edges@), w);
            lemma_group_sum_all_width(freq_view(gen@), w);
        }
        Ok(FrequencyTable { qis: QuasiIdentifiers(copy_qis(&qis.0)), entries })
    }

    /// The groups generalized, quasi-identifier by quasi-identifier of
    /// `attrs`, to the heights `node` gives them (see `rollup_upto`).
    fn generalize_all(
        attrs: &Vec<QuasiIdentifier>,
        cols: &Vec<QuasiIdentifier>,
        node: &Vec<(QuasiIdentifier, usize)>,
        entries: Vec<FreqEntry>,
        dimension_tables: &DimensionTables,
        Ghost(w): Ghost<int>,
    ) -> (r: Result<Vec<FreqEntry>, AlgorithmError>)
        requires
            w == cols@.len(),
            keys_of_width(freq_view(entries@), w),
            dimension_tables.wf(),
        ensures
            match rollup_upto(attrs@, cols@, node@, freq_view(entries@), *dimension_tables, attrs@.len() as int) {
                Ok(f) => r matches Ok(v) && freq_view(v@) == f && keys_of_width(f, w),
                Err(e) => r == Err::<Vec<FreqEntry>, AlgorithmError>(e),
            },
    {
        let ghost es = freq_view(entries@);
        let mut cur = entries;
        for j in 0..attrs.len()
            invariant
                w == cols@.len(),
                es == freq_view(entries@),
                dimension_tables.wf(),
                keys_of_width(freq_view(cur@), w),
                rollup_upto(attrs@, cols@, node@, es, *dimension_tables, j as int) == Ok::<FreqModel, AlgorithmError>(
                    freq_view(cur@),
                ),
        {
            let a = &attrs[j];
            let h = match root_height_exec(node, a) {
                Some(h) => h,
                None => {
                    proof {
                        lemma_rollup_err(attrs@, cols@, node@, es, *dimension_tables, j as int + 1, attrs@.len() as int);
                    }
                    return Err(AlgorithmError::UnknownQuasiIdentifier(a.column_name.clone()));
                },
            };
            if h > 0 {
                let table = match dimension_tables.get(a) {
                    Some(t) => t,
                    None => {
                        proof {
                            lemma_rollup_err(attrs@, cols@, node@, es, *dimension_tables, j as int + 1, attrs@.len() as int);
                        }
                        return Err(AlgorithmError::UnknownQuasiIdentifier(a.column_name.clone()));
                    },
                };
                let pos = match find_att(cols, &a.incognito_colname) {
                    Some(p) => p,
                    None => {
                        proof {
                            lemma_rollup_err(attrs@, cols@, node@, es, *dimension_tables, j as int + 1, attrs@.len() as int);
                        }
                        return Err(AlgorithmError::ColumnNotFound(a.incognito_colname.clone()));
                    },
                };
                cur = gen_times_exec(cur, pos, table, h, Ghost(w));
            }
        }
        Ok(cur)
    }

    /// The frequency table of `root_freq` at the heights of `node` (see `rollup_spec`).
    pub fn rollup(
        qis: &QuasiIdentifiers,
        node: &Vec<(QuasiIdentifier, usize)>,
        root_freq: &FrequencyTable,
        dimension_tables: &DimensionTables,
    ) -> (r: Result<FrequencyTable, AlgorithmError>)
        requires
            root_freq.wf(),
            root_freq.qis.0@ == qis.0@,
            dimension_tables.wf(),
        ensures
            match rollup_spec(qis.0@, node@, freq_view(root_freq.entries@), *dimension_tables) {
                Ok(f) => r matches Ok(t) && t.qis.0@ == qis.0@ && freq_view(t.entries@) == f && t.wf(),
                Err(e) => r == Err::<FrequencyTable, AlgorithmError>(e),
            },
    {
        let ghost w = qis.0@.len() as int;
        let ghost es = freq_view(root_freq.entries@);
        let mut cur: Vec<FreqEntry> = Vec::new();
        for i in 0..root_freq.entries.len()
            invariant
                freq_view(cur@) == freq_view(root_freq.entries@).take(i as int),
        {
            let ghost before = cur@;
            let e = FreqEntry { key: copy_key(&root_freq.entries[i].key), count: root_freq.entries[i].count };
            cur.push(e);
            proof {
                lemma_freq_view_push(before, e);
                assert(freq_view(root_freq.entries@)[i as int] == entry_view(root_freq.entries@[i as int]));
                assert(freq_view(root_freq.entries@).take(i as int + 1) =~= freq_view(root_freq.entries@).take(
                    i as int,
                ).push(freq_view(root_freq.entries@)[i as int]));
            }
        }
        assert(freq_view(root_freq.entries@).take(root_freq.entries@.len() as int) =~= es);
        let cur = Self::generalize_all(&qis.0, &qis.0, node, cur, dimension_tables, Ghost(w))?;
        let entries = group_sum_exec(&cur);
        proof {
            lemma_group_sum_all_width(freq_view(cur@), w);
        }
        Ok(FrequencyTable { qis: QuasiIdentifiers(copy_qis(&qis.0)), entries })
    }

    /// The frequency table of `subset` over the groups of `base`: each group
    /// of `base` reduced to the working columns of `subset` with its count of rows,
    /// then merged. Fails when `base` lacks one of those columns.
    pub fn make_frequency_set(base: &FrequencyTable, subset: &QuasiIdentifiers) -> (r: Result<FrequencyTable, AlgorithmError>)
        requires
            base.wf(),
        ensures
            match att_positions_upto(base.qis.0@, subset.0@, subset.0@.len() as int) {
                Ok(ps) => r matches Ok(t) && t.qis.0@ == subset.0@ && freq_view(t.entries@) == group_sum(
                    projected(freq_view(base.entries@), ps),
                ) && t.wf(),
                Err(e) => r == Err::<FrequencyTable, AlgorithmError>(e),
            },
    {
        let mut ps: Vec<usize> = Vec::new();
        assert(usizes_to_ints(ps@) =~= Seq::<int>::empty());
        for j in 0..subset.0.len()
            invariant
                att_positions_upto(base.qis.0@, subset.0@, j as int) == Ok::<Seq<int>, AlgorithmError>(
                    usizes_to_ints(ps@),
                ),
                forall|q: int| 0 <= q < ps@.len() ==> #[trigger] ps@[q] < base.qis.0@.len(),
                ps@.len() == j,
        {
            match find_att(&base.qis.0, &subset.0[j].incognito_colname) {
                Some(p) => {
                    let ghost before = ps@;
                    ps.push(p);
                    assert(usizes_to_ints(ps@) =~= usizes_to_ints(before).push(p as int));
                },
                None => {
                    proof {
                        lemma_att_positions_err(base.qis.0@, subset.0@, j as int + 1, subset.0@.len() as int);
                    }
                    return Err(AlgorithmError::ColumnNotFound(subset.0[j].incognito_colname.clone()));
                },
            }
        }
        let ghost psi = usizes_to_ints(ps@);
        let ghost fs = freq_view(base.entries@);
        let ghost w = base.qis.0@.len() as int;
        let mut ones: Vec<FreqEntry> = Vec::new();
        for i in 0..base.entries.len()
            invariant
                fs == freq_view(base.entries@),
                keys_of_width(fs, w),
                w == base.qis.0@.len(),
                psi == usizes_to_ints(ps@),
                forall|q: int| 0 <= q < ps@.len() ==> #[trigger] ps@[q] < w,
                freq_view(ones@) == projected(fs, psi).take(i as int),
                keys_of_width(freq_view(ones@), ps@.len() as int),
        {
            let e = &base.entries[i];
            assert(fs[i as int] == entry_view(base.entries@[i as int]));
            assert(fs[i as int].0.len() == w);
            let mut k: Vec<Option<GenValue>> = Vec::new();
            for q in 0..ps.len()
                invariant
                    fs[i as int].0 == key_view(e.key@),
                    e.key@.len() == w,
                    forall|q2: int| 0 <= q2 < ps@.len() ==> #[trigger] ps@[q2] < w,
                    psi == usizes_to_ints(ps@),
                    key_view(k@) == project_key(fs[i as int].0, psi).take(q as int),
            {
                let ghost before = k@;
                let c = copy_opt_value(&e.key[ps[q]]);
                k.push(c);
                proof {
                    lemma_key_view_push(before, c);
                    assert(project_key(fs[i as int].0, psi).take(q as int + 1) =~= project_key(fs[i as int].0, psi).take(
                        q as int,
                    ).push(key_view(e.key@)[ps@[q as int] as int]));
                }
            }
            assert(project_key(fs[i as int].0, psi).take(ps@.len() as int) =~= project_key(fs[i as int].0, psi));
            let ghost before = ones@;
            let ne = FreqEntry { key: k, count: e.count };
            ones.push(ne);
            proof {
                lemma_freq_view_push(before, ne);
                assert(projected(fs, psi).take(i as int + 1) =~= projected(fs, psi).take(i as int).push(
                    projected(fs, psi)[i as int],
                ));
            }
        }
        assert(projected(fs, psi).take(base.entries@.len() as int) =~= projected(fs, psi));
        let entries = group_sum_exec(&ones);
        proof {
            lemma_group_sum_all_width(freq_view(ones@), ps@.len() as int);
        }
        Ok(FrequencyTable { qis: QuasiIdentifiers(copy_qis(&subset.0)), entries })
    }
}


impl Incognito {
    /// The nodes one level above `node`, in the order of its quasi-identifiers
    /// (see `generalizations_upto`), each raised from `node`.
    pub fn direct_generalizations(node: &LatticeEntry, dgh_depths: &Vec<(QuasiIdentifier, usize)>) -> (r: Vec<LatticeEntry>)
        requires
            depths_cover(node.root@, dgh_depths@),
        ensures
            r@.len() == generalizations_upto(node.root@, dgh_depths@, node.root@.len() as int).len(),
            forall|i: int|
                0 <= i < r@.len() ==> {
                    let g = generalizations_upto(node.root@, dgh_depths@, node.root@.len() as int)[i];
                    &&& (#[trigger] r@[i]).root@ == g.0
                    &&& r@[i].attr == g.1
                    &&& r@[i].parent matches Some(p) && p.freq_table == node.freq_table && p.root@ == node.root@
                },
    {
        let ghost gs = generalizations_upto(node.root@, dgh_depths@, node.root@.len() as int);
        let mut r: Vec<LatticeEntry> = Vec::new();
        for i in 0..node.root.len()
            invariant
                depths_cover(node.root@, dgh_depths@),
                r@.len() == generalizations_upto(node.root@, dgh_depths@, i as int).len(),
                forall|j: int|
                    0 <= j < r@.len() ==> {
                        let g = generalizations_upto(node.root@, dgh_depths@, i as int)[j];
                        &&& (#[trigger] r@[j]).root@ == g.0
                        &&& r@[j].attr == g.1
                        &&& r@[j].parent matches Some(p) && p.freq_table == node.freq_table && p.root@ == node.root@
                    },
        {
            let a = &node.root[i].0;
            assert(depth_of(dgh_depths@, node.root@[i as int].0) is Some);
            proof {
                lemma_root_position_found(node.root@, *a, 0, i as int);
                lemma_root_position(node.root@, *a, 0);
            }
            let d = match depth_of_exec(dgh_depths, a) {
                Some(d) => d,
                None => {
                    assert(false);
                    0
                },
            };
            let h = match root_height_exec(&node.root, a) {
                Some(h) => h,
                None => {
                    assert(false);
                    0
                },
            };
            if h < d {
                let e = LatticeEntry::from_parent(node, a.copy());
                let ghost before = r@;
                r.push(e);
                assert forall|j: int| 0 <= j < r@.len() implies {
                    let g = generalizations_upto(node.root@, dgh_depths@, i as int + 1)[j];
                    &&& (#[trigger] r@[j]).root@ == g.0
                    &&& r@[j].attr == g.1
                    &&& r@[j].parent matches Some(p) && p.freq_table == node.freq_table && p.root@ == node.root@
                } by {
                    if j < before.len() {
                        assert(r@[j] == before[j]);
                    }
                }
            }
        }
        r
    }

    /// Every node at or above `entry` up to the height limits: the
    /// cartesian product of the heights of each of its quasi-identifiers, in
    /// lexicographic order, each sharing `entry`'s frequency table.
    pub fn expand_search(entry: &LatticeEntry, dgh_depths: &Vec<(QuasiIdentifier, usize)>) -> (r: Vec<LatticeEntry>)
        requires
            entry.root@.len() > 0,
            depths_cover(entry.root@, dgh_depths@),
        ensures
            r@.len() == cartesian(search_ranges(entry.root@, dgh_depths@)).len(),
            forall|i: int|
                0 <= i < r@.len() ==> {
                    &&& (#[trigger] r@[i]).root@ == zip_root(
                        root_keys(entry.root@),
                        cartesian(search_ranges(entry.root@, dgh_depths@))[i],
                    )
                    &&& r@[i].attr == entry.root@[0].0
                    &&& r@[i].freq_table == entry.freq_table
                    &&& r@[i].parent is None
                },
    {
        let ghost rs = search_ranges(entry.root@, dgh_depths@);
        let mut attrs: Vec<QuasiIdentifier> = Vec::new();
        let mut ranges: Vec<Vec<usize>> = Vec::new();
        for i in 0..entry.root.len()
            invariant
                depths_cover(entry.root@, dgh_depths@),
                rs == search_ranges(entry.root@, dgh_depths@),
                attrs@ == root_keys(entry.root@).take(i as int),
                vecs_view(ranges@) == rs.take(i as int),
        {
            let a = &entry.root[i].0;
            assert(depth_of(dgh_depths@, entry.root@[i as int].0) is Some);
            let d = match depth_of_exec(dgh_depths, a) {
                Some(d) => d,
                None => {
                    assert(false);
                    0
                },
            };
            let hr = height_range(entry.root[i].1, d);
            let ghost before = ranges@;
            attrs.push(a.copy());
            ranges.push(hr);
            assert(attrs@ =~= root_keys(entry.root@).take(i as int + 1));
            assert(hr@ == rs[i as int]);
            assert(vecs_view(ranges@) =~= vecs_view(before).push(hr@));
            assert(rs.take(i as int + 1) =~= rs.take(i as int).push(rs[i as int]));
        }
        assert(rs.take(entry.root@.len() as int) =~= rs);
        assert(attrs@ =~= root_keys(entry.root@));
        let combos = multi_product(ranges);
        let ghost cs = cartesian(rs);
        proof {
            lemma_cartesian_len(rs);
        }
        let qis = QuasiIdentifiers(copy_qis(&attrs));
        let mut r: Vec<LatticeEntry> = Vec::new();
        for c in 0..combos.len()
            invariant
                cs == cartesian(rs),
                vecs_view(combos@) == cs,
                forall|i: int| 0 <= i < cs.len() ==> (#[trigger] cs[i]).len() == rs.len(),
                rs.len() == attrs@.len(),
                attrs@ == root_keys(entry.root@),
                qis.0@ == attrs@,
                attrs@.len() > 0,
                r@.len() == c,
                forall|i: int|
                    0 <= i < c ==> {
                        &&& (#[trigger] r@[i]).root@ == zip_root(root_keys(entry.root@), cs[i])
                        &&& r@[i].attr == entry.root@[0].0
                        &&& r@[i].freq_table == entry.freq_table
                        &&& r@[i].parent is None
                    },
        {
            let combo = &combos[c];
            assert(combo@ == cs[c as int]);
            let mut root: Vec<(QuasiIdentifier, usize)> = Vec::new();
            for j in 0..attrs.len()
                invariant
                    combo@.len() == attrs@.len(),
                    root@ == zip_root(attrs@, combo@).take(j as int),
            {
                root.push((attrs[j].copy(), combo[j]));
                assert(root@ =~= zip_root(attrs@, combo@).take(j as int + 1));
            }
            assert(root@ =~= zip_root(attrs@, combo@));
            let mut e = LatticeEntry::from_root(root, &qis);
            e.set_freq_table(share(&entry.freq_table));
            r.push(e);
        }
        r
    }
}


/// Nodes over the same quasi-identifiers have the same height limits.
pub proof fn lemma_depths_cover_keys(
    a: Seq<(QuasiIdentifier, usize)>,
    b: Seq<(QuasiIdentifier, usize)>,
    depths: Seq<(QuasiIdentifier, usize)>,
)
    requires
        root_keys(a) == root_keys(b),
        depths_cover(a, depths),
    ensures
        depths_cover(b, depths),
{
    assert(root_keys(a).len() == a.len() && root_keys(b).len() == b.len());
    assert forall|i: int| 0 <= i < b.len() implies (#[trigger] depth_of(depths, b[i].0)) is Some by {
        assert(root_keys(a)[i] == root_keys(b)[i]);
        assert(root_keys(a)[i] == a[i].0);
        assert(root_keys(b)[i] == b[i].0);
        assert(depth_of(depths, a[i].0) is Some);
    }
}

/// Whether every level of `root` is 0.
fn all_zero(root: &Vec<(QuasiIdentifier, usize)>) -> (r: bool)
    ensures
        r == forall|i: int| 0 <= i < root@.len() ==> (#[trigger] root@[i]).1 == 0,
{
    for i in 0..root.len()
        invariant
            forall|j: int| 0 <= j < i ==> (#[trigger] root@[j]).1 == 0,
    {
        if root[i].1 != 0 {
            return false;
        }
    }
    true
}

/// Whether some node of `v` is `root`.
fn contains_root(v: &Vec<LatticeEntry>, root: &Vec<(QuasiIdentifier, usize)>) -> (r: bool)
    ensures
        r == exists|i: int| 0 <= i < v@.len() && same_root((#[trigger] v@[i]).root@, root@),
{
    for i in 0..v.len()
        invariant
            forall|j: int| 0 <= j < i ==> !same_root((#[trigger] v@[j]).root@, root@),
    {
        if same_root_exec(&v[i].root, root) {
            return true;
        }
    }
    false
}

/// What a search keeps of a node it found k-anonymous: its frequency table
/// is k-anonymous, well formed and over the search's quasi-identifiers, which
/// the node lists in order.
pub open spec fn found_ok(e: LatticeEntry, keys: Seq<QuasiIdentifier>, k: int) -> bool {
    &&& k_anonymous_spec(freq_view(e.freq_table.entries@), k)
    &&& e.freq_table.wf()
    &&& e.freq_table.qis.0@ == keys
    &&& root_keys(e.root@) == keys
}

/// What a search keeps of a node it queued: raised from a node whose
/// frequency table is well formed and over the search's quasi-identifiers.
pub open spec fn queued_ok(e: LatticeEntry, keys: Seq<QuasiIdentifier>) -> bool {
    &&& e.parent matches Some(p) && p.freq_table.wf() && p.freq_table.qis.0@ == keys
    &&& keys.contains(e.attr)
}

/// Every quasi-identifier of `keys` has a dimension table.
pub open spec fn keys_have_tables(dims: DimensionTables, keys: Seq<QuasiIdentifier>) -> bool {
    forall|m: int| 0 <= m < keys.len() ==> has_table(dims, #[trigger] keys[m])
}

/// What the lattice search keeps of a node besides its quasi-identifiers:
/// the frequency table it carries (its own or that of the node below it
/// that was found k-anonymous) is k-anonymous and over its quasi-identifiers.
pub open spec fn anon_node(e: LatticeEntry, k: int) -> bool {
    &&& k_anonymous_spec(freq_view(e.freq_table.entries@), k)
    &&& e.freq_table.qis.0@ == root_keys(e.root@)
}

/// Each generalization raises one of the first `i` quasi-identifiers of `root`.
pub proof fn lemma_generalizations_attrs(root: Seq<(QuasiIdentifier, usize)>, depths: Seq<(QuasiIdentifier, usize)>, i: int)
    ensures
        forall|t: int|
            0 <= t < generalizations_upto(root, depths, i).len() ==> exists|m: int|
                0 <= m < i && (#[trigger] generalizations_upto(root, depths, i)[t]).1 == root[m].0,
    decreases i,
{
    if i > 0 {
        lemma_generalizations_attrs(root, depths, i - 1);
        let g = generalizations_upto(root, depths, i - 1);
        let gi = generalizations_upto(root, depths, i);
        assert forall|t: int| 0 <= t < gi.len() implies exists|m: int| 0 <= m < i && (#[trigger] gi[t]).1 == root[m].0 by {
            if t < g.len() {
                assert(gi[t] == g[t]);
                let m = choose|m: int| 0 <= m < i - 1 && (#[trigger] g[t]).1 == root[m].0;
                assert(gi[t].1 == root[m].0);
            } else {
                assert(gi[t].1 == root[i - 1].0);
            }
        }
    }
}

/// Generalizing succeeds when each quasi-identifier generalized has its
/// height, its dimension table and its column.
pub proof fn lemma_rollup_upto_ok(
    attrs: Seq<QuasiIdentifier>,
    cols: Seq<QuasiIdentifier>,
    root: Seq<(QuasiIdentifier, usize)>,
    es: FreqModel,
    dims: DimensionTables,
    j: int,
)
    requires
        0 <= j <= attrs.len(),
        forall|i: int|
            0 <= i < attrs.len() ==> has_table(dims, #[trigger] attrs[i]) && root_height(root, attrs[i], 0) is Some
                && att_position(cols, attrs[i].incognito_colname@, 0) is Some,
    ensures
        rollup_upto(attrs, cols, root, es, dims, j) is Ok,
    decreases j,
{
    if j > 0 {
        lemma_rollup_upto_ok(attrs, cols, root, es, dims, j - 1);
        assert(has_table(dims, attrs[j - 1]));
    }
}

/// A node's own roll-up succeeds when each of its quasi-identifiers has a
/// dimension table.
pub proof fn lemma_root_table_ok(root: Seq<(QuasiIdentifier, usize)>, es: FreqModel, dims: DimensionTables)
    requires
        keys_have_tables(dims, root_keys(root)),
    ensures
        root_table(root, es, dims) is Ok,
{
    let keys = root_keys(root);
    assert forall|i: int| 0 <= i < keys.len() implies has_table(dims, #[trigger] keys[i]) && root_height(
        root,
        keys[i],
        0,
    ) is Some && att_position(keys, keys[i].incognito_colname@, 0) is Some by {
        assert(keys[i] == root[i].0);
        lemma_root_position_found(root, keys[i], 0, i);
        lemma_att_position_found(keys, keys[i], 0, i);
    }
    lemma_rollup_upto_ok(keys, keys, root, es, dims, keys.len() as int);
}

/// The positions of `subset` in `qis` are found when each of `subset` has
/// its working column among `qis`.
pub proof fn lemma_att_positions_ok(qis: Seq<QuasiIdentifier>, subset: Seq<QuasiIdentifier>, j: int)
    requires
        0 <= j <= subset.len(),
        forall|i: int| 0 <= i < subset.len() ==> att_position(qis, (#[trigger] subset[i]).incognito_colname@, 0) is Some,
    ensures
        att_positions_upto(qis, subset, j) is Ok,
    decreases j,
{
    if j > 0 {
        lemma_att_positions_ok(qis, subset, j - 1);
        assert(att_position(qis, subset[j - 1].incognito_colname@, 0) is Some);
    }
}

/// A member of `qs` has its working column among `qs`.
pub proof fn lemma_member_position(qs: Seq<QuasiIdentifier>, a: QuasiIdentifier)
    requires
        qs.contains(a),
    ensures
        att_position(qs, a.incognito_colname@, 0) is Some,
{
    let j = choose|j: int| 0 <= j < qs.len() && qs[j] == a;
    lemma_att_position_found(qs, a, 0, j);
}

/// The frequency table of the node `root` over `root_freq`, the table of its
/// quasi-identifiers at level zero: that table itself when every level of
/// `root` is zero, else its roll-up (see `rollup_spec`).
pub open spec fn root_table(
    root: Seq<(QuasiIdentifier, usize)>,
    root_freq: FreqModel,
    dims: DimensionTables,
) -> Result<FreqModel, AlgorithmError> {
    if forall|i: int| 0 <= i < root.len() ==> (#[trigger] root[i]).1 == 0 {
        Ok(root_freq)
    } else {
        rollup_spec(root_keys(root), root, root_freq, dims)
    }
}

/// Node `f` lies at or below node `y`: the same number of levels, each at most `y`'s.
pub open spec fn below(f: Seq<(QuasiIdentifier, usize)>, y: Seq<(QuasiIdentifier, usize)>) -> bool {
    &&& f.len() == y.len()
    &&& forall|t: int| 0 <= t < f.len() ==> #[trigger] f[t].1 <= y[t].1
}

/// Some node of `s` lies at or below `y`.
pub open spec fn covered(s: Seq<LatticeEntry>, y: Seq<(QuasiIdentifier, usize)>) -> bool {
    exists|i: int| 0 <= i < s.len() && below((#[trigger] s[i]).root@, y)
}

/// Node `y` raised one level at position `i`.
pub open spec fn raised_at(y: Seq<(QuasiIdentifier, usize)>, i: int) -> Seq<(QuasiIdentifier, usize)> {
    y.update(i, (y[i].0, (y[i].1 + 1) as usize))
}

/// Every node one level above `y` within the height limits is among `qv`.
pub open spec fn gens_queued(qv: Seq<LatticeEntry>, y: Seq<(QuasiIdentifier, usize)>, depths: Seq<(QuasiIdentifier, usize)>) -> bool {
    forall|i: int|
        0 <= i < y.len() && y[i].1 < depth_of(depths, y[i].0)->0 ==> exists|q: int|
            0 <= q < qv.len() && same_root((#[trigger] qv[q]).root@, raised_at(y, i))
}

/// Node `x`'s frequency table, rolled up from `rf` (see `root_table`), is k-anonymous.
pub open spec fn anon_at(x: Seq<(QuasiIdentifier, usize)>, rf: FreqModel, dims: DimensionTables, k: int) -> bool {
    root_table(x, rf, dims) matches Ok(t) && k_anonymous_spec(t, k)
}

/// Node `x` lies in the lattice above `root`: the same quasi-identifiers, each
/// level between `root`'s and its height limit.
pub open spec fn in_box(x: Seq<(QuasiIdentifier, usize)>, root: Seq<(QuasiIdentifier, usize)>, depths: Seq<(QuasiIdentifier, usize)>) -> bool {
    &&& x.len() == root.len()
    &&& forall|i: int|
        0 <= i < x.len() ==> (#[trigger] x[i]).0 == root[i].0 && root[i].1 <= x[i].1 <= depth_of(depths, root[i].0)->0
}

/// No two quasi-identifiers of `root` are the same in every field.
pub open spec fn distinct_keys(root: Seq<(QuasiIdentifier, usize)>) -> bool {
    forall|i: int, j: int| 0 <= i < j < root.len() ==> !same_qi_key(#[trigger] root[i].0, #[trigger] root[j].0)
}

/// Where the search stands on a node it has passed: a found node lies at or
/// below it, or it is not k-anonymous and the nodes above it are queued.
pub open spec fn settled(
    y: Seq<(QuasiIdentifier, usize)>,
    s: Seq<LatticeEntry>,
    qv: Seq<LatticeEntry>,
    depths: Seq<(QuasiIdentifier, usize)>,
    rf: FreqModel,
    dims: DimensionTables,
    k: int,
) -> bool {
    covered(s, y) || (!anon_at(y, rf, dims, k) && gens_queued(qv, y, depths))
}

pub proof fn lemma_settled_grow(
    y: Seq<(QuasiIdentifier, usize)>,
    s: Seq<LatticeEntry>,
    qv: Seq<LatticeEntry>,
    s2: Seq<LatticeEntry>,
    qv2: Seq<LatticeEntry>,
    depths: Seq<(QuasiIdentifier, usize)>,
    rf: FreqModel,
    dims: DimensionTables,
    k: int,
)
    requires
        settled(y, s, qv, depths, rf, dims, k),
        s.len() <= s2.len(),
        qv.len() <= qv2.len(),
        forall|i: int| 0 <= i < s.len() ==> s2[i] == s[i],
        forall|i: int| 0 <= i < qv.len() ==> qv2[i] == qv[i],
    ensures
        settled(y, s2, qv2, depths, rf, dims, k),
{
    if covered(s, y) {
        let i = choose|i: int| 0 <= i < s.len() && below((#[trigger] s[i]).root@, y);
        assert(s2[i] == s[i]);
    } else {
        assert forall|i: int| 0 <= i < y.len() && y[i].1 < depth_of(depths, y[i].0)->0 implies exists|q: int|
            0 <= q < qv2.len() && same_root((#[trigger] qv2[q]).root@, raised_at(y, i)) by {
            let q = choose|q: int| 0 <= q < qv.len() && same_root((#[trigger] qv[q]).root@, raised_at(y, i));
            assert(qv2[q] == qv[q]);
        }
    }
}

/// In a node with distinct quasi-identifiers, raising one raises its position.
pub proof fn lemma_raised_at(y: Seq<(QuasiIdentifier, usize)>, i: int)
    requires
        distinct_keys(y),
        0 <= i < y.len(),
    ensures
        raised(y, y[i].0) == raised_at(y, i),
        root_height(y, y[i].0, 0) == Some(y[i].1 as int),
{
    lemma_root_position_first(y, y[i].0, 0, i);
    lemma_root_position(y, y[i].0, 0);
}

pub proof fn lemma_root_position_first(root: Seq<(QuasiIdentifier, usize)>, a: QuasiIdentifier, m: int, i: int)
    requires
        0 <= m <= i < root.len(),
        same_qi_key(root[i].0, a),
        distinct_keys(root),
        a == root[i].0,
    ensures
        root_position(root, a, m) == Some(i),
    decreases i - m,
{
    if m < i {
        assert(!same_qi_key(root[m].0, root[i].0));
        lemma_root_position_first(root, a, m + 1, i);
    }
}

/// The generalizations of `y` lie above it and include every node one level
/// above it within the height limits.
pub proof fn lemma_gens(y: Seq<(QuasiIdentifier, usize)>, depths: Seq<(QuasiIdentifier, usize)>, m: int)
    requires
        distinct_keys(y),
        0 <= m <= y.len(),
        depths_cover(y, depths),
    ensures
        forall|t: int| 0 <= t < generalizations_upto(y, depths, m).len() ==> below(y, (#[trigger] generalizations_upto(y, depths, m)[t]).0),
        forall|i: int|
            0 <= i < m && y[i].1 < depth_of(depths, y[i].0)->0 ==> exists|t: int|
                0 <= t < generalizations_upto(y, depths, m).len() && (#[trigger] generalizations_upto(y, depths, m)[t]).0 == raised_at(y, i),
    decreases m,
{
    if m > 0 {
        lemma_gens(y, depths, m - 1);
        let g = generalizations_upto(y, depths, m - 1);
        let gm = generalizations_upto(y, depths, m);
        let a = y[m - 1].0;
        lemma_raised_at(y, m - 1);
        assert(depth_of(depths, y[m - 1].0) is Some);
        lemma_depth_bound(depths, y[m - 1].0, depths.len() as int);
        assert forall|t: int| 0 <= t < gm.len() implies below(y, (#[trigger] gm[t]).0) by {
            if t < g.len() {
                assert(gm[t] == g[t]);
            } else {
                assert(gm[t].0 == raised_at(y, m - 1));
            }
        }
        assert forall|i: int| 0 <= i < m && y[i].1 < depth_of(depths, y[i].0)->0 implies exists|t: int|
            0 <= t < gm.len() && (#[trigger] gm[t]).0 == raised_at(y, i) by {
            if i < m - 1 {
                let t = choose|t: int| 0 <= t < g.len() && (#[trigger] g[t]).0 == raised_at(y, i);
                assert(gm[t] == g[t]);
            } else {
                assert(gm[g.len() as int].0 == raised_at(y, i));
            }
        }
    }
}

/// `below` carries over to a node that is the same as `a`.
pub proof fn lemma_below_same(f: Seq<(QuasiIdentifier, usize)>, a: Seq<(QuasiIdentifier, usize)>, b: Seq<(QuasiIdentifier, usize)>)
    requires
        below(f, a),
        same_root(a, b),
    ensures
        below(f, b),
{
    assert forall|t: int| 0 <= t < f.len() implies #[trigger] f[t].1 <= b[t].1 by {
        assert(0 <= t < a.len());
        assert(same_qi(a[t].0, b[t].0));
        assert(a[t].1 == b[t].1);
        assert(f[t].1 <= a[t].1);
    }
}

/// A height limit is a `usize`.
pub proof fn lemma_depth_bound(depths: Seq<(QuasiIdentifier, usize)>, a: QuasiIdentifier, i: int)
    ensures
        depth_upto(depths, a, i) matches Some(d) ==> 0 <= d <= usize::MAX,
    decreases i,
{
    if i > 0 {
        lemma_depth_bound(depths, a, i - 1);
    }
}

/// `below` is transitive.
pub proof fn lemma_below_trans(a: Seq<(QuasiIdentifier, usize)>, b: Seq<(QuasiIdentifier, usize)>, c: Seq<(QuasiIdentifier, usize)>)
    requires
        below(a, b),
        below(b, c),
    ensures
        below(a, c),
{
    assert forall|t: int| 0 <= t < a.len() implies #[trigger] a[t].1 <= c[t].1 by {
        assert(a[t].1 <= b[t].1);
        assert(b[t].1 <= c[t].1);
    }
}

/// The heights `lo..=hi` are increasing and hold every height between.
pub proof fn lemma_height_seq(lo: int, hi: int)
    requires
        0 <= lo,
        hi <= usize::MAX,
    ensures
        forall|a: int, b: int| 0 <= a < b < height_seq(lo, hi).len() ==> #[trigger] height_seq(lo, hi)[a] < #[trigger] height_seq(lo, hi)[b],
        forall|v: int| lo <= v <= hi ==> #[trigger] height_seq(lo, hi).contains(v as usize),
        forall|a: int| 0 <= a < height_seq(lo, hi).len() ==> lo <= #[trigger] height_seq(lo, hi)[a] <= hi,
{
    assert forall|v: int| lo <= v <= hi implies #[trigger] height_seq(lo, hi).contains(v as usize) by {
        assert(height_seq(lo, hi)[v - lo] == v as usize);
    }
}

/// The highest level the search gives position `i` of `root`: its height
/// limit, or its own level when that is already higher.
pub open spec fn box_hi(root: Seq<(QuasiIdentifier, usize)>, depths: Seq<(QuasiIdentifier, usize)>, i: int) -> int {
    if depth_of(depths, root[i].0)->0 >= root[i].1 {
        depth_of(depths, root[i].0)->0
    } else {
        root[i].1 as int
    }
}

/// Every choice of a cartesian product takes its items from the lists.
pub proof fn lemma_cartesian_members(rs: Seq<Seq<usize>>)
    ensures
        forall|j: int, i: int| 0 <= j < cartesian(rs).len() && 0 <= i < rs.len() ==> rs[i].contains(#[trigger] cartesian(rs)[j][i]),
    decreases rs.len(),
{
    lemma_cartesian_len(rs);
    if rs.len() > 0 {
        let rest = rs.drop_first();
        lemma_cartesian_members(rest);
        lemma_cartesian_len(rest);
        let c2 = cartesian(rest);
        let c = cartesian(rs);
        if c2.len() > 0 {
            lemma_prefix_all_index(rs[0], c2);
            let n = c2.len() as int;
            assert forall|j: int, i: int| 0 <= j < c.len() && 0 <= i < rs.len() implies rs[i].contains(#[trigger] c[j][i]) by {
                lemma_div_mod_split(j, n);
                let a = j / n;
                let b = j % n;
                assert(a < rs[0].len()) by {
                    if a >= rs[0].len() {
                        assert(a * n >= rs[0].len() * n) by (nonlinear_arith)
                            requires
                                a >= rs[0].len(),
                                n > 0,
                        ;
                    }
                }
                assert(c[j] == seq![rs[0][a]] + c2[b]);
                if i == 0 {
                    assert(c[j][0] == rs[0][a]);
                } else {
                    assert(c[j][i] == c2[b][i - 1]);
                    assert(rest[i - 1] == rs[i]);
                }
            }
        } else {
            lemma_prefix_all_empty(rs[0], c2);
        }
    }
}

/// A node of the search lies between `root` and the levels the search allows.
pub proof fn lemma_box_node(root: Seq<(QuasiIdentifier, usize)>, depths: Seq<(QuasiIdentifier, usize)>, rv: Seq<Seq<usize>>, x: Seq<usize>)
    requires
        rv.len() == root.len(),
        x.len() == rv.len(),
        forall|i: int| 0 <= i < rv.len() ==> (#[trigger] rv[i]) == height_seq(root[i].1 as int, box_hi(root, depths, i)),
        forall|i: int| 0 <= i < rv.len() ==> box_hi(root, depths, i) <= usize::MAX,
        forall|i: int| 0 <= i < rv.len() ==> rv[i].contains(#[trigger] x[i]),
    ensures
        forall|i: int| 0 <= i < x.len() ==> root[i].1 <= #[trigger] x[i] <= box_hi(root, depths, i),
{
    assert forall|i: int| 0 <= i < x.len() implies root[i].1 <= #[trigger] x[i] <= box_hi(root, depths, i) by {
        lemma_height_seq(root[i].1 as int, box_hi(root, depths, i));
        assert(rv[i].contains(x[i]));
        let a = choose|a: int| 0 <= a < rv[i].len() && rv[i][a] == x[i];
    }
}

/// A node at or above `root` on the same quasi-identifiers that is not `root`
/// has a level above zero.
pub proof fn lemma_not_all_zero(root: Seq<(QuasiIdentifier, usize)>, y: Seq<(QuasiIdentifier, usize)>)
    requires
        y.len() == root.len(),
        forall|i: int| 0 <= i < y.len() ==> (#[trigger] y[i]).0 == root[i].0 && root[i].1 <= y[i].1,
        !same_root(y, root),
    ensures
        !(forall|i: int| 0 <= i < y.len() ==> (#[trigger] y[i]).1 == 0),
{
    if forall|i: int| 0 <= i < y.len() ==> (#[trigger] y[i]).1 == 0 {
        assert forall|i: int| 0 <= i < y.len() implies same_qi(#[trigger] y[i].0, root[i].0) && y[i].1 == root[i].1 by {
            assert(y[i].1 == 0);
            assert(y[i].0 == root[i].0);
        }
    }
}

/// Nodes with the quasi-identifiers of a node with distinct ones have distinct ones.
pub proof fn lemma_distinct_same_keys(root: Seq<(QuasiIdentifier, usize)>, y: Seq<(QuasiIdentifier, usize)>)
    requires
        y.len() == root.len(),
        forall|i: int| 0 <= i < y.len() ==> (#[trigger] y[i]).0 == root[i].0,
        distinct_keys(root),
    ensures
        distinct_keys(y),
{
    assert forall|i: int, j: int| 0 <= i < j < y.len() implies !same_qi_key(#[trigger] y[i].0, #[trigger] y[j].0) by {
        assert(y[i].0 == root[i].0);
        assert(y[j].0 == root[j].0);
        assert(!same_qi_key(root[i].0, root[j].0));
    }
}

/// `covered` holds on for a longer list with the same start.
pub proof fn lemma_covered_grow(s: Seq<LatticeEntry>, s2: Seq<LatticeEntry>, y: Seq<(QuasiIdentifier, usize)>)
    requires
        covered(s, y),
        s.len() <= s2.len(),
        forall|i: int| 0 <= i < s.len() ==> s2[i] == s[i],
    ensures
        covered(s2, y),
{
    let i = choose|i: int| 0 <= i < s.len() && below((#[trigger] s[i]).root@, y);
    assert(s2[i] == s[i]);
}

/// A node the search passes without visiting it (not the root, not above a
/// found node, not queued) has a found node at or below it: the node one
/// level below it on a raised position comes earlier and is settled.
pub proof fn lemma_skipped_covered(
    r0: Seq<(QuasiIdentifier, usize)>,
    depths: Seq<(QuasiIdentifier, usize)>,
    rv: Seq<Seq<usize>>,
    xs: Seq<Seq<usize>>,
    c: int,
    keys: Seq<QuasiIdentifier>,
    s: Seq<LatticeEntry>,
    qv: Seq<LatticeEntry>,
    rf: FreqModel,
    dims: DimensionTables,
    k: int,
)
    requires
        0 <= c < xs.len(),
        space_ok(r0, depths, rv, xs, keys),
        settled_upto(keys, xs, c, s, qv, depths, rf, dims, k),
        !same_root(zip_root(keys, xs[c]), r0),
        forall|q: int| 0 <= q < qv.len() ==> !same_root((#[trigger] qv[q]).root@, zip_root(keys, xs[c])),
    ensures
        covered(s, zip_root(keys, xs[c])),
{
    reveal(space_ok);
    reveal(settled_upto);
    let x = xs[c];
    let y = zip_root(keys, x);
    assert forall|i: int| 0 <= i < rv.len() implies rv[i].contains(#[trigger] x[i]) by {
        assert(rv[i].contains(xs[c][i]));
    }
    lemma_box_node(r0, depths, rv, x);
    // a position raised above the root
    assert(y.len() == r0.len());
    assert(exists|i: int| 0 <= i < y.len() && !(same_qi(#[trigger] y[i].0, r0[i].0) && y[i].1 == r0[i].1));
    let i = choose|i: int| 0 <= i < y.len() && !(same_qi(#[trigger] y[i].0, r0[i].0) && y[i].1 == r0[i].1);
    assert(y[i] == (keys[i], x[i]));
    assert(keys[i] == r0[i].0);
    assert(same_qi(y[i].0, r0[i].0));
    assert(x[i] >= r0[i].1);
    assert(x[i] > r0[i].1);
    let xp = x.update(i, (x[i] - 1) as usize);
    lemma_depth_bound(depths, r0[i].0, depths.len() as int);
    assert forall|t: int| 0 <= t < rv.len() implies #[trigger] rv[t].contains(xp[t]) by {
        if t == i {
            lemma_height_seq(r0[i].1 as int, box_hi(r0, depths, i));
        } else {
            assert(xp[t] == x[t]);
        }
    }
    lemma_cartesian_contains(rv, xp);
    let jp = choose|j: int| 0 <= j < cartesian(rv).len() && #[trigger] cartesian(rv)[j] == xp;
    lemma_heights_lt_at(xp, x, i);
    lemma_heights_lt_asym(xp, x);
    assert(jp < c) by {
        if jp > c {
            assert(heights_lt(xs[c], xs[jp]));
        }
        if jp == c {
            assert(xp[i] != x[i]);
        }
    }
    let yp = zip_root(keys, xp);
    assert(settled(zip_root(keys, xs[jp]), s, qv, depths, rf, dims, k));
    assert(below(yp, y));
    if covered(s, yp) {
        let f = choose|f: int| 0 <= f < s.len() && below((#[trigger] s[f]).root@, yp);
        lemma_below_trans(s[f].root@, yp, y);
    } else {
        assert(yp[i].1 < depth_of(depths, yp[i].0)->0);
        let q = choose|q: int| 0 <= q < qv.len() && same_root((#[trigger] qv[q]).root@, raised_at(yp, i));
        assert(raised_at(yp, i) =~= y);
        assert(false);
    }
}

/// The search's lattice: `xs` is the cartesian product of the height ranges
/// `rv` of `root`'s quasi-identifiers `keys`, in strictly increasing order,
/// each choice within the ranges.
#[verifier::opaque]
pub open spec fn space_ok(
    r0: Seq<(QuasiIdentifier, usize)>,
    depths: Seq<(QuasiIdentifier, usize)>,
    rv: Seq<Seq<usize>>,
    xs: Seq<Seq<usize>>,
    keys: Seq<QuasiIdentifier>,
) -> bool {
    &&& keys == root_keys(r0)
    &&& rv.len() == keys.len()
    &&& xs == cartesian(rv)
    &&& forall|i: int| 0 <= i < rv.len() ==> (#[trigger] rv[i]) == height_seq(r0[i].1 as int, box_hi(r0, depths, i))
    &&& forall|i: int| 0 <= i < rv.len() ==> box_hi(r0, depths, i) <= usize::MAX
    &&& forall|i: int| 0 <= i < xs.len() ==> (#[trigger] xs[i]).len() == keys.len()
    &&& forall|j1: int, j2: int| 0 <= j1 < j2 < xs.len() ==> heights_lt(#[trigger] xs[j1], #[trigger] xs[j2])
    &&& forall|j: int, i: int| 0 <= j < xs.len() && 0 <= i < rv.len() ==> rv[i].contains(#[trigger] xs[j][i])
}

/// Every node `xs[..c]` is settled.
#[verifier::opaque]
pub open spec fn settled_upto(
    keys: Seq<QuasiIdentifier>,
    xs: Seq<Seq<usize>>,
    c: int,
    s: Seq<LatticeEntry>,
    qv: Seq<LatticeEntry>,
    depths: Seq<(QuasiIdentifier, usize)>,
    rf: FreqModel,
    dims: DimensionTables,
    k: int,
) -> bool {
    forall|j: int| 0 <= j < c ==> settled(zip_root(keys, #[trigger] xs[j]), s, qv, depths, rf, dims, k)
}

pub proof fn lemma_settled_upto_step(
    keys: Seq<QuasiIdentifier>,
    xs: Seq<Seq<usize>>,
    c: int,
    s: Seq<LatticeEntry>,
    qv: Seq<LatticeEntry>,
    s2: Seq<LatticeEntry>,
    qv2: Seq<LatticeEntry>,
    depths: Seq<(QuasiIdentifier, usize)>,
    rf: FreqModel,
    dims: DimensionTables,
    k: int,
)
    requires
        0 <= c,
        settled_upto(keys, xs, c, s, qv, depths, rf, dims, k),
        s.len() <= s2.len(),
        qv.len() <= qv2.len(),
        forall|i: int| 0 <= i < s.len() ==> s2[i] == s[i],
        forall|i: int| 0 <= i < qv.len() ==> qv2[i] == qv[i],
        settled(zip_root(keys, xs[c]), s2, qv2, depths, rf, dims, k),
    ensures
        settled_upto(keys, xs, c + 1, s2, qv2, depths, rf, dims, k),
{
    reveal(settled_upto);
    assert forall|j: int| 0 <= j < c + 1 implies settled(zip_root(keys, #[trigger] xs[j]), s2, qv2, depths, rf, dims, k) by {
        if j < c {
            lemma_settled_grow(zip_root(keys, xs[j]), s, qv, s2, qv2, depths, rf, dims, k);
        }
    }
}

/// A node of the search's lattice lies between `root` and the allowed levels.
pub proof fn lemma_space_node(
    r0: Seq<(QuasiIdentifier, usize)>,
    depths: Seq<(QuasiIdentifier, usize)>,
    rv: Seq<Seq<usize>>,
    xs: Seq<Seq<usize>>,
    keys: Seq<QuasiIdentifier>,
    c: int,
)
    requires
        space_ok(r0, depths, rv, xs, keys),
        0 <= c < xs.len(),
    ensures
        xs[c].len() == keys.len(),
        keys.len() == r0.len(),
        forall|i: int| 0 <= i < xs[c].len() ==> r0[i].1 <= #[trigger] xs[c][i] <= box_hi(r0, depths, i),
{
    reveal(space_ok);
    assert forall|i: int| 0 <= i < rv.len() implies rv[i].contains(#[trigger] xs[c][i]) by {}
    lemma_box_node(r0, depths, rv, xs[c]);
}

/// At the end of the search, every k-anonymous node of the lattice has a
/// found node at or below it.
pub proof fn lemma_space_complete(
    r0: Seq<(QuasiIdentifier, usize)>,
    depths: Seq<(QuasiIdentifier, usize)>,
    rv: Seq<Seq<usize>>,
    xs: Seq<Seq<usize>>,
    keys: Seq<QuasiIdentifier>,
    s: Seq<LatticeEntry>,
    qv: Seq<LatticeEntry>,
    rf: FreqModel,
    dims: DimensionTables,
    k: int,
)
    requires
        space_ok(r0, depths, rv, xs, keys),
        settled_upto(keys, xs, xs.len() as int, s, qv, depths, rf, dims, k),
    ensures
        forall|x: Seq<(QuasiIdentifier, usize)>|
            in_box(x, r0, depths) && #[trigger] anon_at(x, rf, dims, k) ==> covered(s, x),
{
    reveal(space_ok);
    reveal(settled_upto);
    assert forall|x: Seq<(QuasiIdentifier, usize)>| in_box(x, r0, depths) && #[trigger] anon_at(x, rf, dims, k) implies covered(s, x) by {
        let hs = Seq::new(x.len(), |i: int| x[i].1);
        assert forall|i: int| 0 <= i < rv.len() implies #[trigger] rv[i].contains(hs[i]) by {
            lemma_height_seq(r0[i].1 as int, box_hi(r0, depths, i));
            assert(hs[i] == x[i].1);
            assert(x[i].0 == r0[i].0 && r0[i].1 <= x[i].1 <= depth_of(depths, r0[i].0)->0);
            assert(r0[i].1 <= x[i].1 <= box_hi(r0, depths, i));
            assert(height_seq(r0[i].1 as int, box_hi(r0, depths, i)).contains((x[i].1 as int) as usize));
        }
        lemma_cartesian_contains(rv, hs);
        let j = choose|j: int| 0 <= j < cartesian(rv).len() && #[trigger] cartesian(rv)[j] == hs;
        assert(zip_root(keys, xs[j]) =~= x);
        assert(settled(zip_root(keys, xs[j]), s, qv, depths, rf, dims, k));
    }
}

/// A copy of a frequency table.
fn copy_freq_table(t: &FrequencyTable) -> (r: FrequencyTable)
    ensures
        r.qis.0@ == t.qis.0@,
        freq_view(r.entries@) == freq_view(t.entries@),
{
    let mut entries: Vec<FreqEntry> = Vec::new();
    for i in 0..t.entries.len()
        invariant
            freq_view(entries@) == freq_view(t.entries@).take(i as int),
    {
        let ghost before = entries@;
        let e = FreqEntry { key: copy_key(&t.entries[i].key), count: t.entries[i].count };
        entries.push(e);
        proof {
            lemma_freq_view_push(before, e);
            assert(freq_view(t.entries@).take(i as int + 1) =~= freq_view(t.entries@).take(i as int).push(
                entry_view(t.entries@[i as int]),
            ));
        }
    }
    assert(freq_view(t.entries@).take(t.entries@.len() as int) =~= freq_view(t.entries@));
    FrequencyTable { qis: QuasiIdentifiers(copy_qis(&t.qis.0)), entries }
}

impl Incognito {
    /// The node's frequency table and whether it is k-anonymous.
    fn evaluate(freq: FrequencyTable, k: u32) -> (r: (Arc<FrequencyTable>, bool))
        ensures
            *r.0 == freq,
            r.1 == k_anonymous_spec(freq_view(freq.entries@), k as int),
    {
        let anon = freq.is_k_anonymous(k);
        (Arc::new(freq), anon)
    }

    /// Searches the generalization lattice of the quasi-identifiers of `root`
    /// from `root` up, in lexicographic order of the levels: a node is visited
    /// when it is `root` or was queued by a visited node found not k-anonymous,
    /// unless a visited node one level below it was found k-anonymous; its
    /// frequency table is rolled up from `root_freq` (see `root_table`).
    /// Returns the visited nodes found k-anonymous, in order.
    #[verifier::spinoff_prover]
    #[verifier::rlimit(80)]
    pub fn search_subset(
        root: LatticeEntry,
        root_freq: FrequencyTable,
        dgh_depths: &Vec<(QuasiIdentifier, usize)>,
        dimension_tables: &DimensionTables,
        k: u32,
    ) -> (r: Result<Vec<LatticeEntry>, AlgorithmError>)
        requires
            root.root@.len() > 0,
            depths_cover(root.root@, dgh_depths@),
            root_freq.wf(),
            root_freq.qis.0@ == root_keys(root.root@),
            dimension_tables.wf(),
        ensures
            r matches Ok(v) ==> forall|i: int|
                0 <= i < v@.len() ==> found_ok(#[trigger] v@[i], root_keys(root.root@), k as int) && root_table(
                    v@[i].root@,
                    freq_view(root_freq.entries@),
                    *dimension_tables,
                ) == Ok::<FreqModel, AlgorithmError>(freq_view(v@[i].freq_table.entries@)),
            root_table(root.root@, freq_view(root_freq.entries@), *dimension_tables) matches Err(e)
                ==> r == Err::<Vec<LatticeEntry>, AlgorithmError>(e),
            root_table(root.root@, freq_view(root_freq.entries@), *dimension_tables) matches Ok(f)
                && k_anonymous_spec(f, k as int) ==> (r matches Ok(v) ==> v@.len() > 0 && v@[0].root@ == root.root@),
            keys_have_tables(*dimension_tables, root_keys(root.root@)) ==> r is Ok,
            distinct_keys(root.root@) ==> (r matches Ok(v) ==> forall|x: Seq<(QuasiIdentifier, usize)>|
                in_box(x, root.root@, dgh_depths@) && #[trigger] anon_at(
                    x,
                    freq_view(root_freq.entries@),
                    *dimension_tables,
                    k as int,
                ) ==> covered(v@, x)),
    {
        let ghost keys = root_keys(root.root@);
        let ghost r0 = root.root@;
        let ghost rf = freq_view(root_freq.entries@);
        let ghost dk = distinct_keys(r0);
        let mut attrs: Vec<QuasiIdentifier> = Vec::new();
        let mut ranges: Vec<Vec<usize>> = Vec::new();
        for i in 0..root.root.len()
            invariant
                depths_cover(root.root@, dgh_depths@),
                attrs@ == keys.take(i as int),
                keys == root_keys(root.root@),
                r0 == root.root@,
                ranges@.len() == i,
                forall|j: int| 0 <= j < i ==> (#[trigger] ranges@[j])@ == height_seq(r0[j].1 as int, box_hi(r0, dgh_depths@, j)),
                forall|j: int| 0 <= j < i ==> box_hi(r0, dgh_depths@, j) <= usize::MAX,
        {
            let a = &root.root[i].0;
            assert(depth_of(dgh_depths@, root.root@[i as int].0) is Some);
            let d = match depth_of_exec(dgh_depths, a) {
                Some(d) => d,
                None => {
                    assert(false);
                    0
                },
            };
            let lo = root.root[i].1;
            let hi = if d >= lo {
                d
            } else {
                lo
            };
            attrs.push(a.copy());
            ranges.push(height_range(lo, hi));
            assert(attrs@ =~= keys.take(i as int + 1));
        }
        assert(attrs@ =~= keys);
        let ghost rv = vecs_view(ranges@);
        proof {
            assert forall|i: int, a: int, b: int| 0 <= i < rv.len() && 0 <= a < b < rv[i].len() implies #[trigger] rv[i][a]
                < #[trigger] rv[i][b] by {
                lemma_height_seq(r0[i].1 as int, box_hi(r0, dgh_depths@, i));
            }
        }
        let qis = QuasiIdentifiers(copy_qis(&attrs));
        let nodes = multi_product(ranges);
        let ghost xs = vecs_view(nodes@);
        proof {
            lemma_cartesian_len(rv);
            lemma_cartesian_sorted(rv);
            lemma_cartesian_members(rv);
            assert(space_ok(r0, dgh_depths@, rv, xs, keys)) by {
                reveal(space_ok);
            }
        }
        let mut marked: Vec<LatticeEntry> = Vec::new();
        let mut queue: Vec<LatticeEntry> = Vec::new();
        let mut successful: Vec<LatticeEntry> = Vec::new();
        let root_levels = copy_root(&root.root);
        let ghost tables = keys_have_tables(*dimension_tables, keys);

        // the root itself
        let freq = if all_zero(&root.root) {
            copy_freq_table(&root_freq)
        } else {
            match Self::rollup(&qis, &root.root, &root_freq, dimension_tables) {
                Ok(t) => t,
                Err(e) => {
                    proof {
                        if keys_have_tables(*dimension_tables, keys) {
                            lemma_root_table_ok(root.root@, rf, *dimension_tables);
                        }
                    }
                    return Err(e);
                },
            }
        };
        let ghost rt = root_table(root.root@, rf, *dimension_tables);
        let ghost f0 = freq_view(freq.entries@);
        assert(rt == Ok::<FreqModel, AlgorithmError>(f0));
        let mut node = root;
        let (table, anon) = Self::evaluate(freq, k);
        node.set_freq_table(table);
        let mut g = Self::direct_generalizations(&node, dgh_depths);
        proof {
            lemma_generalizations_attrs(node.root@, dgh_depths@, node.root@.len() as int);
            assert forall|i: int| 0 <= i < g@.len() implies keys.contains((#[trigger] g@[i]).attr) by {
                let gg = generalizations_upto(node.root@, dgh_depths@, node.root@.len() as int);
                let m = choose|m: int| 0 <= m < node.root@.len() && gg[i].1 == node.root@[m].0;
                assert(keys[m] == node.root@[m].0);
            }
            if dk {
                lemma_gens(r0, dgh_depths@, r0.len() as int);
            }
        }
        let ghost g0 = g@;
        if anon {
            marked.append(&mut g);
            successful.push(node);
            proof {
                if dk {
                    assert(below(r0, r0));
                    assert(successful@[0].root@ == r0);
                    assert forall|m: int| 0 <= m < marked@.len() implies covered(successful@, (#[trigger] marked@[m]).root@) by {
                        assert(marked@[m] == g0[m]);
                        assert(below(r0, marked@[m].root@));
                        assert(below(successful@[0].root@, marked@[m].root@));
                    }
                    assert(covered(successful@, r0));
                }
            }
        } else {
            let ghost q0 = queue@;
            queue.append(&mut g);
            assert forall|i: int| 0 <= i < queue@.len() implies queued_ok(#[trigger] queue@[i], keys) by {
                assert(queue@[i] == g0[i - q0.len()]);
            }
            proof {
                if dk {
                    assert forall|i: int| 0 <= i < r0.len() && r0[i].1 < depth_of(dgh_depths@, r0[i].0)->0 implies exists|q: int|
                        0 <= q < queue@.len() && same_root((#[trigger] queue@[q]).root@, raised_at(r0, i)) by {
                        let gg = generalizations_upto(r0, dgh_depths@, r0.len() as int);
                        let t = choose|t: int| 0 <= t < gg.len() && (#[trigger] gg[t]).0 == raised_at(r0, i);
                        assert(queue@[t] == g0[t]);
                        lemma_same_root_refl(raised_at(r0, i));
                    }
                }
            }
        }
        assert(settled_upto(keys, xs, 0, successful@, queue@, dgh_depths@, rf, *dimension_tables, k as int)) by {
            reveal(settled_upto);
        }
        for c in 0..nodes.len()
            invariant
                qis.0@ == keys,
                attrs@ == keys,
                keys.len() > 0,
                keys == root_keys(r0),
                r0 == root.root@,
                root_levels@ == r0,
                rf == freq_view(root_freq.entries@),
                root_freq.wf(),
                root_freq.qis.0@ == keys,
                depths_cover(root_levels@, dgh_depths@),
                dimension_tables.wf(),
                xs == vecs_view(nodes@),
                space_ok(r0, dgh_depths@, rv, xs, keys),
                forall|i: int| 0 <= i < queue@.len() ==> queued_ok(#[trigger] queue@[i], keys),
                forall|i: int|
                    0 <= i < successful@.len() ==> found_ok(#[trigger] successful@[i], keys, k as int) && root_table(
                        successful@[i].root@,
                        rf,
                        *dimension_tables,
                    ) == Ok::<FreqModel, AlgorithmError>(freq_view(successful@[i].freq_table.entries@)),
                anon ==> successful@.len() > 0 && successful@[0].root@ == r0,
                anon == k_anonymous_spec(f0, k as int),
                rt == Ok::<FreqModel, AlgorithmError>(f0),
                rt == root_table(root.root@, freq_view(root_freq.entries@), *dimension_tables),
                tables == keys_have_tables(*dimension_tables, keys),
                dk == distinct_keys(r0),
                dk ==> forall|m: int| 0 <= m < marked@.len() ==> covered(successful@, (#[trigger] marked@[m]).root@),
                dk ==> settled(r0, successful@, queue@, dgh_depths@, rf, *dimension_tables, k as int),
                dk ==> settled_upto(keys, xs, c as int, successful@, queue@, dgh_depths@, rf, *dimension_tables, k as int),
        {
            let ghost x = xs[c as int];
            let ghost y = zip_root(keys, x);
            proof {
                lemma_space_node(r0, dgh_depths@, rv, xs, keys, c as int);
            }
            assert(nodes@[c as int]@ == x);
            let mut levels: Vec<(QuasiIdentifier, usize)> = Vec::new();
            for j in 0..attrs.len()
                invariant
                    c < nodes@.len(),
                    x.len() == attrs@.len(),
                    nodes@[c as int]@ == x,
                    levels@ == zip_root(attrs@, x).take(j as int),
            {
                levels.push((attrs[j].copy(), nodes[c][j]));
                assert(levels@ =~= zip_root(attrs@, x).take(j as int + 1));
            }
            assert(levels@ =~= zip_root(attrs@, x));
            assert(levels@ == y);
            assert(root_keys(levels@) =~= keys);
            let ghost s_before = successful@;
            let ghost q_before = queue@;
            proof {
                lemma_space_node(r0, dgh_depths@, rv, xs, keys, c as int);
            }
            if same_root_exec(&levels, &root_levels) {
                proof {
                    if dk {
                        assert(y =~= r0) by {
                            assert forall|i: int| 0 <= i < y.len() implies y[i] == r0[i] by {
                                assert(same_qi(y[i].0, r0[i].0) && y[i].1 == r0[i].1);
                                assert(y[i].0 == keys[i]);
                            }
                        }
                    }
                }
            } else if contains_root(&marked, &levels) {
                proof {
                    if dk {
                        let m = choose|m: int| 0 <= m < marked@.len() && same_root((#[trigger] marked@[m]).root@, levels@);
                        assert(covered(successful@, marked@[m].root@));
                        let f = choose|f: int| 0 <= f < successful@.len() && below((#[trigger] successful@[f]).root@, marked@[m].root@);
                        lemma_below_same(successful@[f].root@, marked@[m].root@, y);
                        assert(covered(successful@, y));
                    }
                }
            } else {
                let mut q: usize = 0;
                while q < queue.len() && !same_root_exec(&queue[q].root, &levels)
                    invariant
                        0 <= q <= queue@.len(),
                        forall|q2: int| 0 <= q2 < q ==> !same_root((#[trigger] queue@[q2]).root@, levels@),
                    decreases queue@.len() - q,
                {
                    q += 1;
                }
                if q < queue.len() {
                    let queued = &queue[q];
                    assert(queued_ok(queue@[q as int], keys));
                    let parent = match &queued.parent {
                        Some(p) => p,
                        None => {
                            assert(false);
                            return Ok(successful);
                        },
                    };
                    proof {
                        assert forall|i: int| 0 <= i < y.len() implies (#[trigger] y[i]).0 == r0[i].0 && r0[i].1 <= y[i].1 by {
                            assert(y[i] == (keys[i], x[i]));
                        }
                        lemma_not_all_zero(r0, y);
                        if tables {
                            lemma_root_table_ok(y, rf, *dimension_tables);
                        }
                    }
                    let freq = Self::rollup(&qis, &levels, &root_freq, dimension_tables)?;
                    assert(root_table(y, rf, *dimension_tables) == Ok::<FreqModel, AlgorithmError>(freq_view(freq.entries@)));
                    let (table, anon2) = Self::evaluate(freq, k);
                    let node = LatticeEntry {
                        attr: queued.attr.copy(),
                        root: levels,
                        freq_table: table,
                        parent: Some(share(parent)),
                    };
                    proof {
                        lemma_depths_cover_keys(root_levels@, node.root@, dgh_depths@);
                        if dk {
                            lemma_distinct_same_keys(r0, y);
                            lemma_gens(y, dgh_depths@, y.len() as int);
                        }
                    }
                    let mut g = Self::direct_generalizations(&node, dgh_depths);
                    let ghost g1 = g@;
                    proof {
                        lemma_generalizations_attrs(node.root@, dgh_depths@, node.root@.len() as int);
                        assert forall|i: int| 0 <= i < g@.len() implies keys.contains((#[trigger] g@[i]).attr) by {
                            let gg = generalizations_upto(node.root@, dgh_depths@, node.root@.len() as int);
                            let m = choose|m: int| 0 <= m < node.root@.len() && gg[i].1 == node.root@[m].0;
                            assert(keys[m] == node.root@[m].0);
                        }
                    }
                    if anon2 {
                        let ghost m0 = marked@;
                        marked.append(&mut g);
                        successful.push(node);
                        proof {
                            if dk {
                                let last = successful@.len() - 1;
                                assert(successful@[last].root@ == y);
                                assert(below(y, y));
                                assert(covered(successful@, y));
                                assert forall|m: int| 0 <= m < marked@.len() implies covered(successful@, (#[trigger] marked@[m]).root@) by {
                                    if m < m0.len() {
                                        assert(marked@[m] == m0[m]);
                                        lemma_covered_grow(s_before, successful@, m0[m].root@);
                                    } else {
                                        assert(marked@[m] == g1[m - m0.len()]);
                                        assert(below(successful@[last].root@, marked@[m].root@));
                                    }
                                }
                            }
                        }
                    } else {
                        let ghost q1 = queue@;
                        queue.append(&mut g);
                        assert forall|i: int| 0 <= i < queue@.len() implies queued_ok(#[trigger] queue@[i], keys) by {
                            if i < q1.len() {
                                assert(queue@[i] == q1[i]);
                            } else {
                                assert(queue@[i] == g1[i - q1.len()]);
                            }
                        }
                        proof {
                            if dk {
                                assert forall|i: int| 0 <= i < y.len() && y[i].1 < depth_of(dgh_depths@, y[i].0)->0 implies exists|q3: int|
                                    0 <= q3 < queue@.len() && same_root((#[trigger] queue@[q3]).root@, raised_at(y, i)) by {
                                    let gg = generalizations_upto(y, dgh_depths@, y.len() as int);
                                    let t = choose|t: int| 0 <= t < gg.len() && (#[trigger] gg[t]).0 == raised_at(y, i);
                                    assert(queue@[q1.len() + t] == g1[t]);
                                    lemma_same_root_refl(raised_at(y, i));
                                }
                                assert(!anon_at(y, rf, *dimension_tables, k as int));
                            }
                        }
                    }
                } else {
                    proof {
                        if dk {
                            lemma_skipped_covered(r0, dgh_depths@, rv, xs, c as int, keys, successful@, queue@, rf, *dimension_tables, k as int);
                            assert(covered(successful@, y));
                        }
                    }
                }
            }
            proof {
                if dk {
                    assert(settled(y, successful@, queue@, dgh_depths@, rf, *dimension_tables, k as int));
                    lemma_settled_upto_step(keys, xs, c as int, s_before, q_before, successful@, queue@, dgh_depths@, rf, *dimension_tables, k as int);
                    lemma_settled_grow(r0, s_before, q_before, successful@, queue@, dgh_depths@, rf, *dimension_tables, k as int);
                }
            }
        }
        proof {
            if dk {
                lemma_space_complete(r0, dgh_depths@, rv, xs, keys, successful@, queue@, rf, *dimension_tables, k as int);
            }
        }
        Ok(successful)
    }
}


/// The order `derive(Ord)` gives kinds: every numerical kind before every
/// categorical one, then by bucket size or hierarchy path.
pub open spec fn qi_type_lt(a: QIType, b: QIType) -> bool {
    match (a, b) {
        (QIType::Numerical { leaf_bucket_size: x }, QIType::Numerical { leaf_bucket_size: y }) => x < y,
        (QIType::Numerical { .. }, QIType::Categorical { .. }) => true,
        (QIType::Categorical { .. }, QIType::Numerical { .. }) => false,
        (
            QIType::Categorical { path_to_json_hierarchy: p },
            QIType::Categorical { path_to_json_hierarchy: q },
        ) => lex_lt(p@, q@),
    }
}

/// The order `derive(Ord)` gives quasi-identifiers: by column name, then
/// working column name, then index, then kind.
pub open spec fn qi_lt(a: QuasiIdentifier, b: QuasiIdentifier) -> bool {
    ||| lex_lt(a.column_name@, b.column_name@)
    ||| a.column_name@ == b.column_name@ && lex_lt(a.incognito_colname@, b.incognito_colname@)
    ||| a.column_name@ == b.column_name@ && a.incognito_colname@ == b.incognito_colname@ && a.index < b.index
    ||| a.column_name@ == b.column_name@ && a.incognito_colname@ == b.incognito_colname@ && a.index == b.index
        && qi_type_lt(a.qi_type, b.qi_type)
}

/// Whether `a` comes strictly before `b` (see `qi_lt`).
pub fn qi_less(a: &QuasiIdentifier, b: &QuasiIdentifier) -> (r: bool)
    ensures
        r == qi_lt(*a, *b),
{
    let ac = chars_of(a.column_name.as_str());
    let bc = chars_of(b.column_name.as_str());
    if chars_lt(&ac, &bc) {
        return true;
    }
    if a.column_name != b.column_name {
        return false;
    }
    let ai = chars_of(a.incognito_colname.as_str());
    let bi = chars_of(b.incognito_colname.as_str());
    if chars_lt(&ai, &bi) {
        return true;
    }
    if a.incognito_colname != b.incognito_colname {
        return false;
    }
    if a.index != b.index {
        return a.index < b.index;
    }
    match (&a.qi_type, &b.qi_type) {
        (QIType::Numerical { leaf_bucket_size: x }, QIType::Numerical { leaf_bucket_size: y }) => *x < *y,
        (QIType::Numerical { .. }, QIType::Categorical { .. }) => true,
        (QIType::Categorical { .. }, QIType::Numerical { .. }) => false,
        (
            QIType::Categorical { path_to_json_hierarchy: p },
            QIType::Categorical { path_to_json_hierarchy: q },
        ) => {
            let pc = chars_of(p.as_str());
            let qc = chars_of(q.as_str());
            chars_lt(&pc, &qc)
        },
    }
}

/// Every quasi-identifier of `root` is one of `qs`.
pub open spec fn keys_in(root: Seq<(QuasiIdentifier, usize)>, qs: Seq<QuasiIdentifier>) -> bool {
    forall|i: int| 0 <= i < root.len() ==> qs.contains(#[trigger] root[i].0)
}

/// Index of the first entry of `root` from `i` on whose quasi-identifier
/// does not come before `key` (see `qi_lt`).
pub open spec fn insert_position(root: Seq<(QuasiIdentifier, usize)>, key: QuasiIdentifier, i: int) -> int
    decreases root.len() - i,
{
    if 0 <= i < root.len() && qi_lt(root[i].0, key) {
        insert_position(root, key, i + 1)
    } else {
        i
    }
}

pub proof fn lemma_insert_position(root: Seq<(QuasiIdentifier, usize)>, key: QuasiIdentifier, i: int)
    requires
        0 <= i <= root.len(),
    ensures
        i <= insert_position(root, key, i) <= root.len(),
        forall|j: int| i <= j < insert_position(root, key, i) ==> qi_lt(#[trigger] root[j].0, key),
    decreases root.len() - i,
{
    if i < root.len() && qi_lt(root[i].0, key) {
        lemma_insert_position(root, key, i + 1);
    }
}

/// `root` with height `h` stored for `key`: at the first entry that does
/// not come before `key`, replaced when that entry is `key` in every field,
/// else inserted there.
pub open spec fn inserted(root: Seq<(QuasiIdentifier, usize)>, key: QuasiIdentifier, h: usize) -> Seq<(QuasiIdentifier, usize)> {
    let j = insert_position(root, key, 0);
    if j < root.len() && same_qi_key(root[j].0, key) {
        root.update(j, (root[j].0, h))
    } else {
        root.insert(j, (key, h))
    }
}

/// Stores height `h` for `key` in a node kept in the order of `qi_less` (see `inserted`).
pub fn insert_level(root: &mut Vec<(QuasiIdentifier, usize)>, key: QuasiIdentifier, h: usize)
    ensures
        final(root)@ == inserted(old(root)@, key, h),
{
    proof {
        lemma_insert_position(root@, key, 0);
    }
    let mut j: usize = 0;
    while j < root.len() && qi_less(&root[j].0, &key)
        invariant
            0 <= j <= root@.len(),
            root@ == old(root)@,
            insert_position(root@, key, j as int) == insert_position(root@, key, 0),
        decreases root@.len() - j,
    {
        j += 1;
    }
    if j < root.len() && same_qi_key_exec(&root[j].0, &key) {
        let k2 = root[j].0.copy();
        root.set(j, (k2, h));
    } else {
        root.insert(j, (key, h));
    }
}

/// Every quasi-identifier of `inserted(root, key, h)` is `key` or one of `root`'s.
pub proof fn lemma_inserted_keys(root: Seq<(QuasiIdentifier, usize)>, key: QuasiIdentifier, h: usize)
    ensures
        inserted(root, key, h).len() >= 1,
        forall|i: int|
            0 <= i < inserted(root, key, h).len() ==> (#[trigger] inserted(root, key, h)[i]).0 == key || exists|j: int|
                0 <= j < root.len() && root[j].0 == inserted(root, key, h)[i].0,
{
    lemma_insert_position(root, key, 0);
    let j = insert_position(root, key, 0);
    let r = inserted(root, key, h);
    assert forall|i: int| 0 <= i < r.len() implies (#[trigger] r[i]).0 == key || exists|j2: int|
        0 <= j2 < root.len() && root[j2].0 == r[i].0 by {
        if j < root.len() && same_qi_key(root[j].0, key) {
            assert(root[i].0 == r[i].0);
        } else if i < j {
            assert(root[i].0 == r[i].0);
        } else if i > j {
            assert(root[i - 1].0 == r[i].0);
        }
    }
}

/// Why the column of a numerical taxonomy named `name` cannot be turned into
/// intervals: it is missing or holds text.
pub open spec fn taxonomy_column_failure(ds: Dataset, name: String) -> Option<AlgorithmError> {
    match first_column_from(ds.df.columns@, name@, 0) {
        None => Some(AlgorithmError::ColumnNotFound(name)),
        Some(c) => match ds.df.columns@[c].data {
            ColumnData::Int(_) => None,
            ColumnData::Str(_) => Some(AlgorithmError::WrongColumnType(name)),
        },
    }
}

/// Why Incognito cannot work on the column of `q`: it is missing, holds the
/// wrong kind of cells, or (numerical) has no taxonomy.
pub open spec fn qi_column_failure(ds: Dataset, q: QuasiIdentifier) -> Option<AlgorithmError> {
    match first_column_from(ds.df.columns@, q.column_name@, 0) {
        None => Some(AlgorithmError::ColumnNotFound(q.column_name)),
        Some(c) => match (q.qi_type, ds.df.columns@[c].data) {
            (QIType::Numerical { .. }, ColumnData::Int(_)) => if lookup_named(
                ds.taxonomies@.numerical,
                q.column_name@,
            ) is Some {
                None
            } else {
                Some(AlgorithmError::MissingTaxonomy(q.column_name))
            },
            (QIType::Categorical { .. }, ColumnData::Str(_)) => None,
            _ => Some(AlgorithmError::WrongColumnType(q.column_name)),
        },
    }
}

/// The first failure among the columns of the first `i` numerical taxonomies.
pub open spec fn taxonomy_columns_failure(ds: Dataset, i: int) -> Option<AlgorithmError>
    decreases i,
{
    if i <= 0 {
        None
    } else {
        match taxonomy_columns_failure(ds, i - 1) {
            Some(e) => Some(e),
            None => taxonomy_column_failure(ds, ds.taxonomies.numerical_taxonomies@[i - 1].name),
        }
    }
}

/// The first failure among the columns of `qs[..i]`.
pub open spec fn qi_columns_failure(ds: Dataset, qs: Seq<QuasiIdentifier>, i: int) -> Option<AlgorithmError>
    decreases i,
{
    if i <= 0 {
        None
    } else {
        match qi_columns_failure(ds, qs, i - 1) {
            Some(e) => Some(e),
            None => qi_column_failure(ds, qs[i - 1]),
        }
    }
}

/// Why Incognito cannot work on the dataset's columns: first the columns of
/// the numerical taxonomies, then those of the quasi-identifiers.
pub open spec fn columns_failure(ds: Dataset, qs: Seq<QuasiIdentifier>) -> Option<AlgorithmError> {
    match taxonomy_columns_failure(ds, ds.taxonomies.numerical_taxonomies@.len() as int) {
        Some(e) => Some(e),
        None => qi_columns_failure(ds, qs, qs.len() as int),
    }
}

pub proof fn lemma_taxonomy_columns_failure(ds: Dataset, j: int, m: int)
    requires
        j <= m,
        taxonomy_columns_failure(ds, j) is Some,
    ensures
        taxonomy_columns_failure(ds, m) == taxonomy_columns_failure(ds, j),
    decreases m - j,
{
    if j < m {
        lemma_taxonomy_columns_failure(ds, j, m - 1);
    }
}

pub proof fn lemma_qi_columns_failure(ds: Dataset, qs: Seq<QuasiIdentifier>, j: int, m: int)
    requires
        j <= m,
        qi_columns_failure(ds, qs, j) is Some,
    ensures
        qi_columns_failure(ds, qs, m) == qi_columns_failure(ds, qs, j),
    decreases m - j,
{
    if j < m {
        lemma_qi_columns_failure(ds, qs, j, m - 1);
    }
}

/// The cell of quasi-identifier `q` at row `r`, as Incognito works on it: an
/// integer `v` as the interval `v..=v`, a text as a label.
pub open spec fn qi_cell(ds: Dataset, q: QuasiIdentifier, r: int) -> Option<GenKey> {
    match first_column_from(ds.df.columns@, q.column_name@, 0) {
        None => None,
        Some(c) => match ds.df.columns@[c].data {
            ColumnData::Int(v) => match v@[r] {
                Some(x) => Some(GenKey::Range(x as int, x as int)),
                None => None,
            },
            ColumnData::Str(v) => match v@[r] {
                Some(x) => Some(GenKey::Text(x@)),
                None => None,
            },
        },
    }
}

/// The cells of the quasi-identifiers `qs` at row `r`, in order.
pub open spec fn row_key(ds: Dataset, qs: Seq<QuasiIdentifier>, r: int) -> Seq<Option<GenKey>> {
    Seq::new(qs.len(), |i: int| qi_cell(ds, qs[i], r))
}

impl Incognito {
    /// Checks that Incognito can work on the dataset's columns (see
    /// `columns_failure`); returns the column of each of `qs`.
    pub fn check_columns(dataset: &Dataset, qs: &Vec<QuasiIdentifier>) -> (r: Result<Vec<usize>, AlgorithmError>)
        ensures
            match columns_failure(*dataset, qs@) {
                Some(e) => r == Err::<Vec<usize>, AlgorithmError>(e),
                None => r matches Ok(cols) && cols@.len() == qs@.len() && forall|i: int|
                    0 <= i < qs@.len() ==> first_column_from(dataset.df.columns@, qs@[i].column_name@, 0) == Some(
                        #[trigger] cols@[i] as int,
                    ),
            },
    {
        let ghost ds = *dataset;
        let nt = dataset.taxonomies.numerical_taxonomies.len();
        for i in 0..nt
            invariant
                ds == *dataset,
                nt == dataset.taxonomies.numerical_taxonomies@.len(),
                taxonomy_columns_failure(ds, i as int) is None,
        {
            let name = &dataset.taxonomies.numerical_taxonomies[i].name;
            proof {
                crate::data::table::lemma_first_column(dataset.df.columns@, name@, 0);
            }
            match dataset.df.column_index(name.as_str()) {
                None => {
                    proof {
                        lemma_taxonomy_columns_failure(ds, i as int + 1, nt as int);
                    }
                    return Err(AlgorithmError::ColumnNotFound(name.clone()));
                },
                Some(c) => match &dataset.df.columns[c].data {
                    ColumnData::Int(_) => {},
                    ColumnData::Str(_) => {
                        proof {
                            lemma_taxonomy_columns_failure(ds, i as int + 1, nt as int);
                        }
                        return Err(AlgorithmError::WrongColumnType(name.clone()));
                    },
                },
            }
        }
        let mut cols: Vec<usize> = Vec::new();
        for i in 0..qs.len()
            invariant
                ds == *dataset,
                taxonomy_columns_failure(ds, nt as int) is None,
                nt == dataset.taxonomies.numerical_taxonomies@.len(),
                qi_columns_failure(ds, qs@, i as int) is None,
                cols@.len() == i,
                forall|j: int|
                    0 <= j < i ==> first_column_from(dataset.df.columns@, qs@[j].column_name@, 0) == Some(
                        #[trigger] cols@[j] as int,
                    ),
        {
            let q = &qs[i];
            proof {
                crate::data::table::lemma_first_column(dataset.df.columns@, q.column_name@, 0);
            }
            match dataset.df.column_index(q.column_name.as_str()) {
                None => {
                    proof {
                        lemma_qi_columns_failure(ds, qs@, i as int + 1, qs@.len() as int);
                    }
                    return Err(AlgorithmError::ColumnNotFound(q.column_name.clone()));
                },
                Some(c) => {
                    let ok = match (&q.qi_type, &dataset.df.columns[c].data) {
                        (QIType::Numerical { .. }, ColumnData::Int(_)) => {
                            if dataset.taxonomies.numerical(q.column_name.as_str()).is_none() {
                                proof {
                                    lemma_qi_columns_failure(ds, qs@, i as int + 1, qs@.len() as int);
                                }
                                return Err(AlgorithmError::MissingTaxonomy(q.column_name.clone()));
                            }
                            true
                        },
                        (QIType::Categorical { .. }, ColumnData::Str(_)) => true,
                        _ => false,
                    };
                    if !ok {
                        proof {
                            lemma_qi_columns_failure(ds, qs@, i as int + 1, qs@.len() as int);
                        }
                        return Err(AlgorithmError::WrongColumnType(q.column_name.clone()));
                    }
                    cols.push(c);
                },
            }
        }
        Ok(cols)
    }

    /// The cells of the quasi-identifiers `qs` on every row (see `row_key`).
    pub fn row_keys(dataset: &Dataset, qs: &Vec<QuasiIdentifier>, cols: &Vec<usize>) -> (r: Vec<Vec<Option<GenValue>>>)
        requires
            dataset.df.wf(),
            cols@.len() == qs@.len(),
            forall|i: int|
                0 <= i < qs@.len() ==> first_column_from(dataset.df.columns@, qs@[i].column_name@, 0) == Some(
                    #[trigger] cols@[i] as int,
                ),
        ensures
            r@.len() == dataset.df.height,
            forall|j: int| 0 <= j < r@.len() ==> key_view((#[trigger] r@[j])@) == row_key(*dataset, qs@, j),
            forall|j: int| 0 <= j < r@.len() ==> (#[trigger] r@[j])@.len() == qs@.len(),
    {
        let n = dataset.df.height;
        let mut rows: Vec<Vec<Option<GenValue>>> = Vec::new();
        for j in 0..n
            invariant
                n == dataset.df.height,
                dataset.df.wf(),
                cols@.len() == qs@.len(),
                forall|i: int|
                    0 <= i < qs@.len() ==> first_column_from(dataset.df.columns@, qs@[i].column_name@, 0) == Some(
                        #[trigger] cols@[i] as int,
                    ),
                rows@.len() == j,
                forall|j2: int| 0 <= j2 < j ==> key_view((#[trigger] rows@[j2])@) == row_key(*dataset, qs@, j2),
                forall|j2: int| 0 <= j2 < j ==> (#[trigger] rows@[j2])@.len() == qs@.len(),
        {
            let mut key: Vec<Option<GenValue>> = Vec::new();
            for i in 0..qs.len()
                invariant
                    j < n,
                    n == dataset.df.height,
                    dataset.df.wf(),
                    cols@.len() == qs@.len(),
                    forall|i2: int|
                        0 <= i2 < qs@.len() ==> first_column_from(dataset.df.columns@, qs@[i2].column_name@, 0) == Some(
                            #[trigger] cols@[i2] as int,
                        ),
                    key_view(key@) == row_key(*dataset, qs@, j as int).take(i as int),
            {
                let c = cols[i];
                assert(first_column_from(dataset.df.columns@, qs@[i as int].column_name@, 0) == Some(c as int));
                proof {
                    crate::data::table::lemma_first_column(dataset.df.columns@, qs@[i as int].column_name@, 0);
                }
                assert(crate::data::table::column_len(dataset.df.columns@[c as int].data) == n);
                let cell = match &dataset.df.columns[c].data {
                    ColumnData::Int(v) => match v[j] {
                        Some(x) => Some(GenValue::Range(x, x)),
                        None => None,
                    },
                    ColumnData::Str(v) => match &v[j] {
                        Some(x) => Some(GenValue::Text(x.clone())),
                        None => None,
                    },
                };
                let ghost before = key@;
                key.push(cell);
                proof {
                    lemma_key_view_push(before, cell);
                    assert(row_key(*dataset, qs@, j as int).take(i as int + 1) =~= row_key(*dataset, qs@, j as int).take(
                        i as int,
                    ).push(qi_cell(*dataset, qs@[i as int], j as int)));
                }
            }
            assert(row_key(*dataset, qs@, j as int).take(qs@.len() as int) =~= row_key(*dataset, qs@, j as int));
            assert(key_view(key@).len() == key@.len());
            rows.push(key);
        }
        rows
    }

    /// The base frequency table: the rows grouped by their cells on `qs`, counted.
    pub fn base_table(rows: &Vec<Vec<Option<GenValue>>>, qs: &Vec<QuasiIdentifier>) -> (t: FrequencyTable)
        requires
            forall|j: int| 0 <= j < rows@.len() ==> (#[trigger] rows@[j])@.len() == qs@.len(),
        ensures
            t.wf(),
            t.qis.0@ == qs@,
            freq_view(t.entries@) == group_sum(Seq::new(rows@.len(), |j: int| (key_view(rows@[j]@), 1int))),
    {
        let ghost ones = Seq::new(rows@.len(), |j: int| (key_view(rows@[j]@), 1int));
        let mut es: Vec<FreqEntry> = Vec::new();
        for j in 0..rows.len()
            invariant
                ones == Seq::new(rows@.len(), |j: int| (key_view(rows@[j]@), 1int)),
                forall|j2: int| 0 <= j2 < rows@.len() ==> (#[trigger] rows@[j2])@.len() == qs@.len(),
                freq_view(es@) == ones.take(j as int),
                keys_of_width(freq_view(es@), qs@.len() as int),
        {
            let ghost before = es@;
            let e = FreqEntry { key: copy_key(&rows[j]), count: 1 };
            es.push(e);
            proof {
                lemma_freq_view_push(before, e);
                assert(ones.take(j as int + 1) =~= ones.take(j as int).push(ones[j as int]));
                assert forall|i: int| 0 <= i < freq_view(es@).len() implies (#[trigger] freq_view(es@)[i]).0.len()
                    == qs@.len() by {
                    if i < before.len() {
                        assert(freq_view(es@)[i] == freq_view(before)[i]);
                    }
                }
            }
        }
        assert(ones.take(rows@.len() as int) =~= ones);
        let entries = group_sum_exec(&es);
        proof {
            lemma_group_sum_all_width(freq_view(es@), qs@.len() as int);
        }
        FrequencyTable { qis: QuasiIdentifiers(copy_qis(qs)), entries }
    }
}


/// The text of an interval: `low-high`.
pub open spec fn range_text(lo: int, hi: int) -> Seq<char> {
    int_decimal(lo) + seq!['-'] + int_decimal(hi)
}

/// The text of a generalized cell: an interval as `low-high`, a label as itself.
pub open spec fn gen_text(v: Option<GenKey>) -> Option<Seq<char>> {
    match v {
        Some(GenKey::Range(lo, hi)) => Some(range_text(lo, hi)),
        Some(GenKey::Text(s)) => Some(s),
        None => None,
    }
}

/// The text of an integer cell read as the interval `v..=v`.
pub open spec fn int_range_text(o: Option<i64>) -> Option<Seq<char>> {
    match o {
        Some(x) => Some(range_text(x as int, x as int)),
        None => None,
    }
}

/// Whether `name` is the column of a numerical quasi-identifier among `qs`.
pub open spec fn numerical_qi_column(qs: Seq<QuasiIdentifier>, name: Seq<char>) -> bool {
    exists|i: int| 0 <= i < qs.len() && (#[trigger] qs[i]).column_name@ == name && qs[i].qi_type is Numerical
}

/// Whether `name` is the column of one of `best`.
pub open spec fn best_column(best: Seq<QuasiIdentifier>, name: Seq<char>) -> bool {
    exists|i: int| 0 <= i < best.len() && (#[trigger] best[i]).column_name@ == name
}

/// The rows of the output: the table row each materialized row comes from.
pub open spec fn source_rows(ms: FreqModel) -> Seq<int> {
    Seq::new(ms.len(), |j: int| ms[j].1)
}

/// A column of the table that is not one of `best`'s, on the materialized
/// rows: a numerical quasi-identifier's integers as intervals `v-v`, any
/// other column as it is.
pub open spec fn kept_column(qs: Seq<QuasiIdentifier>, c: Column, ms: FreqModel) -> CellsModel {
    let rows = source_rows(ms);
    match c.data {
        ColumnData::Int(v) => if numerical_qi_column(qs, c.name@) {
            CellsModel::Str(Seq::new(rows.len(), |j: int| int_range_text(v@[rows[j]])))
        } else {
            CellsModel::Int(Seq::new(rows.len(), |j: int| v@[rows[j]]))
        },
        ColumnData::Str(v) => CellsModel::Str(Seq::new(rows.len(), |j: int| opt_string_view(v@[rows[j]]))),
    }
}

/// The generalized columns of `best`, in order, as text.
pub open spec fn best_columns(best: Seq<QuasiIdentifier>, qs: Seq<QuasiIdentifier>, ms: FreqModel) -> Seq<(Seq<char>, CellsModel)> {
    Seq::new(
        best.len(),
        |i: int|
            (
                best[i].column_name@,
                CellsModel::Str(
                    Seq::new(ms.len(), |j: int| gen_text(ms[j].0[att_position(qs, best[i].incognito_colname@, 0)->0])),
                ),
            ),
    )
}

/// The other columns of the table among `cols[..i]`, in order.
pub open spec fn kept_columns(
    cols: Seq<Column>,
    best: Seq<QuasiIdentifier>,
    qs: Seq<QuasiIdentifier>,
    ms: FreqModel,
    i: int,
) -> Seq<(Seq<char>, CellsModel)>
    decreases i,
{
    if i <= 0 {
        Seq::empty()
    } else {
        let prev = kept_columns(cols, best, qs, ms, i - 1);
        if best_column(best, cols[i - 1].name@) {
            prev
        } else {
            prev.push((cols[i - 1].name@, kept_column(qs, cols[i - 1], ms)))
        }
    }
}

/// The anonymized table from the materialized rows `ms` (generalized cells
/// of all quasi-identifiers `qs`, and the table row each comes from): first
/// the columns of `best`, generalized, then the other columns of the table.
pub open spec fn assembled(ds: Dataset, qs: Seq<QuasiIdentifier>, best: Seq<QuasiIdentifier>, ms: FreqModel) -> TableModel {
    TableModel {
        height: ms.len() as int,
        columns: best_columns(best, qs, ms) + kept_columns(ds.df.columns@, best, qs, ms, ds.df.columns@.len() as int),
    }
}

/// The text of an interval (see `range_text`).
fn range_text_exec(lo: i64, hi: i64) -> (s: String)
    ensures
        s@ == range_text(lo as int, hi as int),
{
    let mut cs: Vec<char> = Vec::new();
    push_decimal_i64(&mut cs, lo);
    cs.push('-');
    push_decimal_i64(&mut cs, hi);
    assert(cs@ =~= range_text(lo as int, hi as int));
    string_from_chars(&cs)
}

/// The text of a generalized cell (see `gen_text`).
fn gen_text_exec(v: &Option<GenValue>) -> (r: Option<String>)
    ensures
        opt_string_view(r) == gen_text(opt_key(*v)),
{
    match v {
        Some(GenValue::Range(lo, hi)) => Some(range_text_exec(*lo, *hi)),
        Some(GenValue::Text(s)) => Some(s.clone()),
        None => None,
    }
}

/// Whether `name` is the column of a numerical quasi-identifier among `qs`.
fn numerical_qi_column_exec(qs: &Vec<QuasiIdentifier>, name: &String) -> (r: bool)
    ensures
        r == numerical_qi_column(qs@, name@),
{
    for i in 0..qs.len()
        invariant
            forall|j: int| 0 <= j < i ==> !((#[trigger] qs@[j]).column_name@ == name@ && qs@[j].qi_type is Numerical),
    {
        if qs[i].column_name == *name {
            match &qs[i].qi_type {
                QIType::Numerical { .. } => {
                    return true;
                },
                QIType::Categorical { .. } => {},
            }
        }
    }
    false
}

/// Whether `name` is the column of one of `best`.
fn best_column_exec(best: &Vec<QuasiIdentifier>, name: &String) -> (r: bool)
    ensures
        r == best_column(best@, name@),
{
    for i in 0..best.len()
        invariant
            forall|j: int| 0 <= j < i ==> (#[trigger] best@[j]).column_name@ != name@,
    {
        if best[i].column_name == *name {
            return true;
        }
    }
    false
}


/// Pushing a cell pushes its text.
pub proof fn lemma_opt_strings_push(s: Seq<Option<String>>, x: Option<String>)
    ensures
        opt_strings_view(s.push(x)) == opt_strings_view(s).push(opt_string_view(x)),
{
    assert(opt_strings_view(s.push(x)) =~= opt_strings_view(s).push(opt_string_view(x)));
}

/// The content of a table's columns.
pub open spec fn columns_view(cols: Seq<Column>) -> Seq<(Seq<char>, CellsModel)> {
    cols.map_values(|c: Column| (c.name@, c.data@))
}

impl Incognito {
    /// The anonymized table from the materialized rows `ms` (see `assembled`).
    pub fn assemble(dataset: &Dataset, qs: &Vec<QuasiIdentifier>, best: &Vec<QuasiIdentifier>, ms: &Vec<FreqEntry>) -> (t: Table)
        requires
            dataset.df.wf(),
            keys_of_width(freq_view(ms@), qs@.len() as int),
            forall|j: int| 0 <= j < ms@.len() ==> (#[trigger] ms@[j]).count < dataset.df.height,
            forall|i: int| 0 <= i < best@.len() ==> (#[trigger] att_position(qs@, best@[i].incognito_colname@, 0)) is Some,
        ensures
            t@ == assembled(*dataset, qs@, best@, freq_view(ms@)),
            t.wf(),
    {
        let ghost fm = freq_view(ms@);
        let n = ms.len();
        let mut cols: Vec<Column> = Vec::new();
        for i in 0..best.len()
            invariant
                n == ms@.len(),
                fm == freq_view(ms@),
                keys_of_width(fm, qs@.len() as int),
                forall|i2: int| 0 <= i2 < best@.len() ==> (#[trigger] att_position(qs@, best@[i2].incognito_colname@, 0)) is Some,
                columns_view(cols@) == best_columns(best@, qs@, fm).take(i as int),
                forall|c: int| 0 <= c < cols@.len() ==> crate::data::table::column_len((#[trigger] cols@[c]).data) == n,
        {
            assert(att_position(qs@, best@[i as int].incognito_colname@, 0) is Some);
            let pos = match find_att(qs, &best[i].incognito_colname) {
                Some(p) => p,
                None => {
                    assert(false);
                    0
                },
            };
            let mut cells: Vec<Option<String>> = Vec::new();
            for j in 0..n
                invariant
                    n == ms@.len(),
                    fm == freq_view(ms@),
                    keys_of_width(fm, qs@.len() as int),
                    pos < qs@.len(),
                    opt_strings_view(cells@) == Seq::new(j as nat, |j2: int| gen_text(fm[j2].0[pos as int])),
            {
                assert(fm[j as int] == entry_view(ms@[j as int]));
                assert(fm[j as int].0.len() == qs@.len());
                assert(key_view(ms@[j as int].key@)[pos as int] == opt_key(ms@[j as int].key@[pos as int]));
                let ghost before = cells@;
                let t = gen_text_exec(&ms[j].key[pos]);
                cells.push(t);
                proof {
                    lemma_opt_strings_push(before, t);
                }
                assert(opt_strings_view(cells@) =~= Seq::new(j as nat + 1, |j2: int| gen_text(fm[j2].0[pos as int])));
            }
            let ghost before = cols@;
            let col = Column { name: best[i].column_name.clone(), data: ColumnData::Str(cells) };
            cols.push(col);
            assert(columns_view(cols@) =~= columns_view(before).push((col.name@, col.data@)));
            assert(best_columns(best@, qs@, fm).take(i as int + 1) =~= best_columns(best@, qs@, fm).take(i as int).push(
                best_columns(best@, qs@, fm)[i as int],
            ));
            assert(col.data@ == best_columns(best@, qs@, fm)[i as int].1);
        }
        assert(best_columns(best@, qs@, fm).take(best@.len() as int) =~= best_columns(best@, qs@, fm));
        let ghost head = columns_view(cols@);
        let ghost rows = source_rows(fm);
        let h = dataset.df.height;
        for c in 0..dataset.df.columns.len()
            invariant
                n == ms@.len(),
                h == dataset.df.height,
                dataset.df.wf(),
                fm == freq_view(ms@),
                rows == source_rows(fm),
                forall|j: int| 0 <= j < ms@.len() ==> (#[trigger] ms@[j]).count < h,
                columns_view(cols@) == head + kept_columns(dataset.df.columns@, best@, qs@, fm, c as int),
                forall|c2: int| 0 <= c2 < cols@.len() ==> crate::data::table::column_len((#[trigger] cols@[c2]).data) == n,
        {
            let column = &dataset.df.columns[c];
            if !best_column_exec(best, &column.name) {
                assert(crate::data::table::column_len(dataset.df.columns@[c as int].data) == h);
                let data = match &column.data {
                    ColumnData::Int(v) => {
                        if numerical_qi_column_exec(qs, &column.name) {
                            let mut cells: Vec<Option<String>> = Vec::new();
                            for j in 0..n
                                invariant
                                    n == ms@.len(),
                                    fm == freq_view(ms@),
                                    rows == source_rows(fm),
                                    v@.len() == h,
                                    forall|j2: int| 0 <= j2 < ms@.len() ==> (#[trigger] ms@[j2]).count < h,
                                    opt_strings_view(cells@) == Seq::new(j as nat, |j2: int| int_range_text(v@[rows[j2]])),
                            {
                                assert(rows[j as int] == ms@[j as int].count);
                                let r = ms[j].count as usize;
                                let t = match v[r] {
                                    Some(x) => Some(range_text_exec(x, x)),
                                    None => None,
                                };
                                let ghost before = cells@;
                                cells.push(t);
                                proof {
                                    lemma_opt_strings_push(before, t);
                                }
                                assert(opt_strings_view(cells@) =~= Seq::new(j as nat + 1, |j2: int| int_range_text(v@[rows[j2]])));
                            }
                            ColumnData::Str(cells)
                        } else {
                            let mut cells: Vec<Option<i64>> = Vec::new();
                            for j in 0..n
                                invariant
                                    n == ms@.len(),
                                    fm == freq_view(ms@),
                                    rows == source_rows(fm),
                                    v@.len() == h,
                                    forall|j2: int| 0 <= j2 < ms@.len() ==> (#[trigger] ms@[j2]).count < h,
                                    cells@ == Seq::new(j as nat, |j2: int| v@[rows[j2]]),
                            {
                                assert(rows[j as int] == ms@[j as int].count);
                                let r = ms[j].count as usize;
                                cells.push(v[r]);
                                assert(cells@ =~= Seq::new(j as nat + 1, |j2: int| v@[rows[j2]]));
                            }
                            ColumnData::Int(cells)
                        }
                    },
                    ColumnData::Str(v) => {
                        let mut cells: Vec<Option<String>> = Vec::new();
                        for j in 0..n
                            invariant
                                n == ms@.len(),
                                fm == freq_view(ms@),
                                rows == source_rows(fm),
                                v@.len() == h,
                                forall|j2: int| 0 <= j2 < ms@.len() ==> (#[trigger] ms@[j2]).count < h,
                                opt_strings_view(cells@) == Seq::new(j as nat, |j2: int| opt_string_view(v@[rows[j2]])),
                        {
                            assert(rows[j as int] == ms@[j as int].count);
                            let r = ms[j].count as usize;
                            let t = clone_opt_string(&v[r]);
                            let ghost before = cells@;
                            cells.push(t);
                            proof {
                                lemma_opt_strings_push(before, t);
                            }
                            assert(opt_strings_view(cells@) =~= Seq::new(j as nat + 1, |j2: int| opt_string_view(v@[rows[j2]])));
                        }
                        ColumnData::Str(cells)
                    },
                };
                let ghost before = cols@;
                let col = Column { name: column.name.clone(), data };
                cols.push(col);
                assert(col.data@ == kept_column(qs@, dataset.df.columns@[c as int], fm));
                assert(columns_view(cols@) =~= columns_view(before).push((col.name@, col.data@)));
            }
        }
        let t = Table { height: n, columns: cols };
        assert(t@.columns =~= columns_view(cols@));
        t
    }
}


/// Every count is below `h`.
pub open spec fn counts_below(es: FreqModel, h: int) -> bool {
    forall|i: int| 0 <= i < es.len() ==> (#[trigger] es[i]).1 < h
}

/// Generalizing keeps the counts.
pub proof fn lemma_gen_entries_counts(es: FreqModel, pos: int, edges: Seq<(GenKey, GenKey)>, h: int)
    requires
        counts_below(es, h),
    ensures
        counts_below(gen_entries(es, pos, edges), h),
    decreases es.len(),
{
    if es.len() > 0 {
        assert(counts_below(es.drop_last(), h)) by {
            assert forall|i: int| 0 <= i < es.drop_last().len() implies (#[trigger] es.drop_last()[i]).1 < h by {
                assert(es.drop_last()[i] == es[i]);
            }
        }
        lemma_gen_entries_counts(es.drop_last(), pos, edges, h);
        let prev = gen_entries(es.drop_last(), pos, edges);
        let e = es.last();
        assert(e == es[es.len() - 1]);
        let ts = gen_step(edges, e.0[pos]);
        let tail = Seq::new(ts.len(), |j: int| (e.0.update(pos, ts[j]), e.1));
        assert(gen_entries(es, pos, edges) == prev + tail);
        assert forall|i: int| 0 <= i < (prev + tail).len() implies (#[trigger] (prev + tail)[i]).1 < h by {
            if i >= prev.len() {
                assert((prev + tail)[i] == tail[i - prev.len()]);
            }
        }
    }
}

/// Generalizing `n` times keeps the counts.
pub proof fn lemma_gen_times_counts(es: FreqModel, pos: int, edges: Seq<(GenKey, GenKey)>, n: nat, h: int)
    requires
        counts_below(es, h),
    ensures
        counts_below(gen_times(es, pos, edges, n), h),
    decreases n,
{
    if n > 0 {
        lemma_gen_times_counts(es, pos, edges, (n - 1) as nat, h);
        lemma_gen_entries_counts(gen_times(es, pos, edges, (n - 1) as nat), pos, edges, h);
    }
}

/// Generalizing every quasi-identifier keeps the counts.
pub proof fn lemma_rollup_counts(
    attrs: Seq<QuasiIdentifier>,
    cols: Seq<QuasiIdentifier>,
    root: Seq<(QuasiIdentifier, usize)>,
    es: FreqModel,
    dims: DimensionTables,
    j: int,
    h: int,
)
    requires
        counts_below(es, h),
    ensures
        rollup_upto(attrs, cols, root, es, dims, j) matches Ok(f) ==> counts_below(f, h),
    decreases j,
{
    if j > 0 {
        lemma_rollup_counts(attrs, cols, root, es, dims, j - 1, h);
        match rollup_upto(attrs, cols, root, es, dims, j - 1) {
            Ok(f) => {
                let a = attrs[j - 1];
                match root_height(root, a, 0) {
                    Some(hh) => if hh != 0 && has_table(dims, a) {
                        match att_position(cols, a.incognito_colname@, 0) {
                            Some(p) => lemma_gen_times_counts(f, p, table_of(dims, a), hh as nat, h),
                            None => {},
                        }
                    },
                    None => {},
                }
            },
            Err(_) => {},
        }
    }
}

/// Every count is at least `h`.
pub open spec fn counts_at_least(es: FreqModel, h: int) -> bool {
    forall|i: int| 0 <= i < es.len() ==> (#[trigger] es[i]).1 >= h
}

/// Generalizing keeps every group's count and leaves at least one group per group.
pub proof fn lemma_gen_entries_at_least(es: FreqModel, pos: int, edges: Seq<(GenKey, GenKey)>, h: int)
    requires
        counts_at_least(es, h),
    ensures
        counts_at_least(gen_entries(es, pos, edges), h),
        gen_entries(es, pos, edges).len() >= es.len(),
    decreases es.len(),
{
    if es.len() > 0 {
        assert(counts_at_least(es.drop_last(), h)) by {
            assert forall|i: int| 0 <= i < es.drop_last().len() implies (#[trigger] es.drop_last()[i]).1 >= h by {
                assert(es.drop_last()[i] == es[i]);
            }
        }
        lemma_gen_entries_at_least(es.drop_last(), pos, edges, h);
        let prev = gen_entries(es.drop_last(), pos, edges);
        let e = es.last();
        assert(e == es[es.len() - 1]);
        let ts = gen_step(edges, e.0[pos]);
        assert(ts.len() >= 1);
        let tail = Seq::new(ts.len(), |j: int| (e.0.update(pos, ts[j]), e.1));
        assert(gen_entries(es, pos, edges) == prev + tail);
        assert forall|i: int| 0 <= i < (prev + tail).len() implies (#[trigger] (prev + tail)[i]).1 >= h by {
            if i >= prev.len() {
                assert((prev + tail)[i] == tail[i - prev.len()]);
            }
        }
    }
}

/// Generalizing `n` times keeps every group's count.
pub proof fn lemma_gen_times_at_least(es: FreqModel, pos: int, edges: Seq<(GenKey, GenKey)>, n: nat, h: int)
    requires
        counts_at_least(es, h),
    ensures
        counts_at_least(gen_times(es, pos, edges, n), h),
        gen_times(es, pos, edges, n).len() >= es.len(),
    decreases n,
{
    if n > 0 {
        lemma_gen_times_at_least(es, pos, edges, (n - 1) as nat, h);
        lemma_gen_entries_at_least(gen_times(es, pos, edges, (n - 1) as nat), pos, edges, h);
    }
}

/// Generalizing quasi-identifier by quasi-identifier keeps every group's count.
pub proof fn lemma_rollup_upto_at_least(
    attrs: Seq<QuasiIdentifier>,
    cols: Seq<QuasiIdentifier>,
    root: Seq<(QuasiIdentifier, usize)>,
    es: FreqModel,
    dims: DimensionTables,
    j: int,
    h: int,
)
    requires
        counts_at_least(es, h),
    ensures
        rollup_upto(attrs, cols, root, es, dims, j) matches Ok(f) ==> counts_at_least(f, h) && f.len() >= es.len(),
    decreases j,
{
    if j > 0 {
        lemma_rollup_upto_at_least(attrs, cols, root, es, dims, j - 1, h);
        match rollup_upto(attrs, cols, root, es, dims, j - 1) {
            Ok(f) => {
                let a = attrs[j - 1];
                match root_height(root, a, 0) {
                    Some(hh) => if hh != 0 && has_table(dims, a) {
                        match att_position(cols, a.incognito_colname@, 0) {
                            Some(p) => lemma_gen_times_at_least(f, p, table_of(dims, a), hh as nat, h),
                            None => {},
                        }
                    },
                    None => {},
                }
            },
            Err(_) => {},
        }
    }
}

/// Merging groups keeps every count at or above `h` (a count that would pass
/// `u64::MAX` stays there, still above `h`), and keeps at least one group.
pub proof fn lemma_group_sum_at_least(es: FreqModel, i: int, h: int)
    requires
        counts_at_least(es, h),
        0 <= h <= u64::MAX,
        0 <= i <= es.len(),
    ensures
        counts_at_least(group_sum_upto(es, i), h),
        i > 0 ==> group_sum_upto(es, i).len() > 0,
    decreases i,
{
    if i > 0 {
        lemma_group_sum_at_least(es, i - 1, h);
        let g = group_sum_upto(es, i - 1);
        let e = es[i - 1];
        lemma_find_key_from(g, e.0, 0);
        match find_key_from(g, e.0, 0) {
            Some(j) => {
                let u = g.update(j, (e.0, sat_add(g[j].1, e.1)));
                assert forall|q: int| 0 <= q < u.len() implies (#[trigger] u[q]).1 >= h by {
                    if q != j {
                        assert(u[q] == g[q]);
                    }
                }
            },
            None => {
                let u = g.push(e);
                assert forall|q: int| 0 <= q < u.len() implies (#[trigger] u[q]).1 >= h by {
                    if q < g.len() {
                        assert(u[q] == g[q]);
                    }
                }
            },
        }
    }
}

/// Incognito's generalization property: rolling a k-anonymous frequency
/// table up one step on a quasi-identifier gives a k-anonymous table.
pub proof fn lemma_rollup_parent_keeps_k_anonymity(
    qis: Seq<QuasiIdentifier>,
    changed: QuasiIdentifier,
    es: FreqModel,
    dims: DimensionTables,
    k: u32,
)
    requires
        k_anonymous_spec(es, k as int),
    ensures
        rollup_parent_spec(qis, changed, es, dims) matches Ok(g) ==> k_anonymous_spec(g, k as int),
{
    if let Some(p) = att_position(qis, changed.incognito_colname@, 0) {
        let t = table_of(dims, changed);
        lemma_gen_entries_at_least(es, p, t, k as int);
        let f = gen_entries(es, p, t);
        lemma_group_sum_at_least(f, f.len() as int, k as int);
    }
}

/// The same for any node above: generalizing a k-anonymous frequency table
/// to any heights gives a k-anonymous table.
pub proof fn lemma_rollup_keeps_k_anonymity(
    qis: Seq<QuasiIdentifier>,
    root: Seq<(QuasiIdentifier, usize)>,
    es: FreqModel,
    dims: DimensionTables,
    k: u32,
)
    requires
        k_anonymous_spec(es, k as int),
    ensures
        rollup_spec(qis, root, es, dims) matches Ok(g) ==> k_anonymous_spec(g, k as int),
{
    lemma_rollup_upto_at_least(qis, qis, root, es, dims, qis.len() as int, k as int);
    if let Ok(f) = rollup_upto(qis, qis, root, es, dims, qis.len() as int) {
        lemma_group_sum_at_least(f, f.len() as int, k as int);
    }
}

/// A quasi-identifier of `qs` is found by its working column name.
pub proof fn lemma_att_position_found(qs: Seq<QuasiIdentifier>, a: QuasiIdentifier, i: int, j: int)
    requires
        0 <= i <= j < qs.len(),
        qs[j].incognito_colname@ == a.incognito_colname@,
    ensures
        att_position(qs, a.incognito_colname@, i) is Some,
    decreases j - i,
{
    if qs[i].incognito_colname@ != a.incognito_colname@ {
        lemma_att_position_found(qs, a, i + 1, j);
    }
}

/// A quasi-identifier of `qs` has the height limit stored for it.
pub proof fn lemma_depth_found(depths: Seq<(QuasiIdentifier, usize)>, a: QuasiIdentifier, i: int, j: int)
    requires
        0 <= j < i <= depths.len(),
        same_qi(depths[j].0, a),
    ensures
        depth_upto(depths, a, i) is Some,
    decreases i - j,
{
    if !same_qi(depths[i - 1].0, a) {
        lemma_depth_found(depths, a, i - 1, j);
    }
}

/// The sum of a node's levels (saturating).
pub open spec fn height_sum_upto(root: Seq<(QuasiIdentifier, usize)>, i: int) -> int
    decreases i,
{
    if i <= 0 {
        0
    } else {
        let s = height_sum_upto(root, i - 1) + root[i - 1].1;
        if s > u128::MAX {
            u128::MAX as int
        } else {
            s
        }
    }
}

/// The sum of a node's levels.
pub open spec fn height_sum(root: Seq<(QuasiIdentifier, usize)>) -> int {
    height_sum_upto(root, root.len() as int)
}

/// The sum of a node's levels (see `height_sum`).
fn height_sum_exec(root: &Vec<(QuasiIdentifier, usize)>) -> (r: u128)
    ensures
        r == height_sum(root@),
{
    let mut s: u128 = 0;
    for i in 0..root.len()
        invariant
            s == height_sum_upto(root@, i as int),
    {
        let h = root[i].1 as u128;
        if s > u128::MAX - h {
            s = u128::MAX;
        } else {
            s = s + h;
        }
    }
    s
}

/// What the lattice search keeps of a node: it lists some of the
/// quasi-identifiers `qs`, at least one.
pub open spec fn node_ok(e: LatticeEntry, qs: Seq<QuasiIdentifier>) -> bool {
    e.root@.len() > 0 && keys_in(e.root@, qs)
}


/// The quasi-identifiers of a node, in order.
fn root_subset(root: &Vec<(QuasiIdentifier, usize)>) -> (q: QuasiIdentifiers)
    ensures
        q.0@ == root_keys(root@),
{
    let mut v: Vec<QuasiIdentifier> = Vec::new();
    for i in 0..root.len()
        invariant
            v@ == root_keys(root@).take(i as int),
    {
        v.push(root[i].0.copy());
        assert(v@ =~= root_keys(root@).take(i as int + 1));
    }
    assert(v@ =~= root_keys(root@));
    QuasiIdentifiers(v)
}

/// Height limits for `qs`: the height of the taxonomy of each one's column.
fn depths_for(dataset: &Dataset, qs: &Vec<QuasiIdentifier>) -> (d: Vec<(QuasiIdentifier, usize)>)
    ensures
        d@.len() == qs@.len(),
        forall|i: int| 0 <= i < qs@.len() ==> (#[trigger] d@[i]).0 == qs@[i],
        d@ == qi_depths(*dataset, qs@),
{
    let mut d: Vec<(QuasiIdentifier, usize)> = Vec::new();
    for i in 0..qs.len()
        invariant
            d@.len() == i,
            forall|j: int| 0 <= j < i ==> (#[trigger] d@[j]).0 == qs@[j],
            d@ == qi_depths(*dataset, qs@).take(i as int),
    {
        let h = dataset.taxonomies.get_qi_height(qs[i].column_name.as_str());
        d.push((qs[i].copy(), h));
        assert(d@ =~= qi_depths(*dataset, qs@).take(i as int + 1));
    }
    assert(qi_depths(*dataset, qs@).take(qs@.len() as int) =~= qi_depths(*dataset, qs@));
    d
}

/// The height limit of each of `qs`: the height of the taxonomy of its column.
pub open spec fn qi_depths(ds: Dataset, qs: Seq<QuasiIdentifier>) -> Seq<(QuasiIdentifier, usize)> {
    Seq::new(qs.len(), |i: int| (qs[i], qi_height_spec(ds.taxonomies@, qs[i].column_name@) as usize))
}

/// Some node of `v` is at the levels `x`.
pub open spec fn lists_node(v: Seq<LatticeEntry>, x: Seq<(QuasiIdentifier, usize)>) -> bool {
    exists|i: int| 0 <= i < v.len() && (#[trigger] v[i]).root@ == x
}

/// Below node `i` of `v` lies a node of `v` whose frequency set, rolled up
/// from `rf`, is k-anonymous.
pub open spec fn has_anon_below(v: Seq<LatticeEntry>, i: int, rf: FreqModel, dims: DimensionTables, k: int) -> bool {
    exists|j: int| 0 <= j < v.len() && below((#[trigger] v[j]).root@, v[i].root@) && anon_at(v[j].root@, rf, dims, k)
}

/// Below each node of `v` lies a node of `v` whose frequency set, rolled up
/// from `rf`, is k-anonymous.
#[verifier::opaque]
pub open spec fn anon_below(v: Seq<LatticeEntry>, rf: FreqModel, dims: DimensionTables, k: int) -> bool {
    forall|i: int| 0 <= i < v.len() ==> #[trigger] has_anon_below(v, i, rf, dims, k)
}

/// A node over some of `qs` has a height limit for each of its quasi-identifiers.
pub proof fn lemma_depths_cover_from(
    root: Seq<(QuasiIdentifier, usize)>,
    qs: Seq<QuasiIdentifier>,
    depths: Seq<(QuasiIdentifier, usize)>,
)
    requires
        keys_in(root, qs),
        depths.len() == qs.len(),
        forall|i: int| 0 <= i < qs.len() ==> (#[trigger] depths[i]).0 == qs[i],
    ensures
        depths_cover(root, depths),
{
    assert forall|i: int| 0 <= i < root.len() implies (#[trigger] depth_of(depths, root[i].0)) is Some by {
        assert(qs.contains(root[i].0));
        let j = choose|j: int| 0 <= j < qs.len() && qs[j] == root[i].0;
        assert(depths[j].0 == qs[j]);
        lemma_depth_found(depths, root[i].0, depths.len() as int, j);
    }
}

/// The nodes, stably ordered by the sum of their levels.
fn sort_by_height(v: &Vec<LatticeEntry>, Ghost(qs): Ghost<Seq<QuasiIdentifier>>) -> (r: Vec<LatticeEntry>)
    requires
        forall|i: int| 0 <= i < v@.len() ==> node_ok(#[trigger] v@[i], qs),
    ensures
        r@.len() == v@.len(),
        forall|i: int| 0 <= i < r@.len() ==> node_ok(#[trigger] r@[i], qs),
{
    let mut out: Vec<LatticeEntry> = Vec::new();
    let mut sums: Vec<u128> = Vec::new();
    for i in 0..v.len()
        invariant
            forall|j: int| 0 <= j < v@.len() ==> node_ok(#[trigger] v@[j], qs),
            out@.len() == i,
            sums@.len() == i,
            forall|j: int| 0 <= j < out@.len() ==> node_ok(#[trigger] out@[j], qs),
    {
        let s = height_sum_exec(&v[i].root);
        let mut p: usize = 0;
        while p < sums.len() && sums[p] <= s
            invariant
                0 <= p <= sums@.len(),
            decreases sums@.len() - p,
        {
            p += 1;
        }
        let e = v[i].copy();
        assert(node_ok(v@[i as int], qs));
        let ghost before = out@;
        out.insert(p, e);
        sums.insert(p, s);
        assert forall|j: int| 0 <= j < out@.len() implies node_ok(#[trigger] out@[j], qs) by {
            if j < p {
                assert(out@[j] == before[j]);
            } else if j > p {
                assert(out@[j] == before[j - 1]);
            }
        }
    }
    out
}

/// The node `root` without the entries whose quasi-identifier is `a`.
pub open spec fn dropped(root: Seq<(QuasiIdentifier, usize)>, a: QuasiIdentifier) -> Seq<(QuasiIdentifier, usize)>
    decreases root.len(),
{
    if root.len() == 0 {
        Seq::empty()
    } else {
        let d = dropped(root.drop_last(), a);
        if same_qi(root.last().0, a) {
            d
        } else {
            d.push(root.last())
        }
    }
}

/// The node without the quasi-identifiers that are `a` (see `dropped`).
fn drop_attr(root: &Vec<(QuasiIdentifier, usize)>, a: &QuasiIdentifier) -> (r: Vec<(QuasiIdentifier, usize)>)
    ensures
        r@ == dropped(root@, *a),
{
    let mut r: Vec<(QuasiIdentifier, usize)> = Vec::new();
    for i in 0..root.len()
        invariant
            r@ == dropped(root@.take(i as int), *a),
    {
        assert(root@.take(i as int + 1).drop_last() =~= root@.take(i as int));
        if !root[i].0.same(a) {
            r.push((root[i].0.copy(), root[i].1));
        }
    }
    assert(root@.take(root@.len() as int) =~= root@);
    r
}

/// Whether a node of `v` is `root` (see `same_root`).
pub open spec fn has_root(v: Seq<LatticeEntry>, root: Seq<(QuasiIdentifier, usize)>) -> bool {
    exists|i: int| 0 <= i < v.len() && same_root((#[trigger] v[i]).root@, root)
}

/// Whether every node with one quasi-identifier of `root` dropped is among `s`.
pub open spec fn subs_found(root: Seq<(QuasiIdentifier, usize)>, s: Seq<LatticeEntry>) -> bool {
    forall|d: int| 0 <= d < root.len() ==> has_root(s, #[trigger] dropped(root, root[d].0))
}

/// Whether no candidate before `c[i]` is the same node.
pub open spec fn first_of_its_node(c: Seq<LatticeEntry>, i: int) -> bool {
    forall|j: int| 0 <= j < i ==> !same_root((#[trigger] c[j]).root@, c[i].root@)
}

/// The nodes of the candidates `c[..i]` kept by `prune_candidates`, in order:
/// the first of each node whose sub-nodes are all among `s`.
pub open spec fn pruned_upto(c: Seq<LatticeEntry>, s: Seq<LatticeEntry>, i: int) -> Seq<Seq<(QuasiIdentifier, usize)>>
    decreases i,
{
    if i <= 0 {
        Seq::empty()
    } else {
        let prev = pruned_upto(c, s, i - 1);
        if first_of_its_node(c, i - 1) && subs_found(c[i - 1].root@, s) {
            prev.push(c[i - 1].root@)
        } else {
            prev
        }
    }
}

/// Every node is `same_root` with itself.
pub proof fn lemma_same_root_refl(a: Seq<(QuasiIdentifier, usize)>)
    ensures
        same_root(a, a),
{
}

/// `same_root` is symmetric and transitive.
pub proof fn lemma_same_root_equiv(a: Seq<(QuasiIdentifier, usize)>, b: Seq<(QuasiIdentifier, usize)>, c: Seq<(QuasiIdentifier, usize)>)
    ensures
        same_root(a, b) ==> same_root(b, a),
        same_root(a, b) && same_root(b, c) ==> same_root(a, c),
{
    if same_root(a, b) {
        assert forall|i: int| 0 <= i < b.len() implies same_qi(#[trigger] b[i].0, a[i].0) && b[i].1 == a[i].1 by {
            assert(same_qi(a[i].0, b[i].0));
        }
        if same_root(b, c) {
            assert forall|i: int| 0 <= i < a.len() implies same_qi(#[trigger] a[i].0, c[i].0) && a[i].1 == c[i].1 by {
                assert(same_qi(a[i].0, b[i].0));
                assert(same_qi(b[i].0, c[i].0));
            }
        }
    }
}

/// Whether `p` and `q` agree, quasi-identifier and level, on every entry of
/// `p` but its last (as far as `q` goes).
pub open spec fn agree_but_last(p: Seq<(QuasiIdentifier, usize)>, q: Seq<(QuasiIdentifier, usize)>) -> bool {
    forall|j: int| 0 <= j < p.len() - 1 && j < q.len() ==> #[trigger] entry_agree(p, q, j)
}

/// Whether `p` and `q` have the same quasi-identifier and level at `j`.
pub open spec fn entry_agree(p: Seq<(QuasiIdentifier, usize)>, q: Seq<(QuasiIdentifier, usize)>, j: int) -> bool {
    same_qi(p[j].0, q[j].0) && p[j].1 == q[j].1
}

/// Whether `p` and `q` agree at every index below `j`.
pub open spec fn agree_below(p: Seq<(QuasiIdentifier, usize)>, q: Seq<(QuasiIdentifier, usize)>, j: int) -> bool {
    forall|j2: int| 0 <= j2 < j ==> #[trigger] entry_agree(p, q, j2)
}

pub proof fn lemma_agree_below_step(p: Seq<(QuasiIdentifier, usize)>, q: Seq<(QuasiIdentifier, usize)>, j: int)
    requires
        j >= 0,
    ensures
        agree_below(p, q, j + 1) == (agree_below(p, q, j) && entry_agree(p, q, j)),
{
    if agree_below(p, q, j) && entry_agree(p, q, j) {
        assert forall|j2: int| 0 <= j2 < j + 1 implies #[trigger] entry_agree(p, q, j2) by {
            if j2 < j {
                assert(entry_agree(p, q, j2));
            }
        }
    }
}

/// Whether nodes `p` and `q` join: they agree but for their last entries,
/// and `p`'s last quasi-identifier comes before `q`'s by index.
pub open spec fn joinable(p: Seq<(QuasiIdentifier, usize)>, q: Seq<(QuasiIdentifier, usize)>) -> bool {
    &&& p.len() > 0
    &&& q.len() > 0
    &&& agree_but_last(p, q)
    &&& p.last().0.index < q.last().0.index
}

/// The joins of node `p` with the nodes `s[..j]`, in order: `p` with the
/// other's last quasi-identifier stored at its level.
pub open spec fn joins_with(p: Seq<(QuasiIdentifier, usize)>, s: Seq<LatticeEntry>, j: int) -> Seq<
    Seq<(QuasiIdentifier, usize)>,
>
    decreases j,
{
    if j <= 0 {
        Seq::empty()
    } else {
        let prev = joins_with(p, s, j - 1);
        let q = s[j - 1].root@;
        if joinable(p, q) {
            prev.push(inserted(p, q.last().0, q.last().1))
        } else {
            prev
        }
    }
}

/// The joins of each of the nodes `s[..i]` with every node of `s`, in order.
pub open spec fn joins_upto(s: Seq<LatticeEntry>, i: int) -> Seq<Seq<(QuasiIdentifier, usize)>>
    decreases i,
{
    if i <= 0 {
        Seq::empty()
    } else {
        joins_upto(s, i - 1) + joins_with(s[i - 1].root@, s, s.len() as int)
    }
}

/// The levels of each node of `v`.
pub open spec fn entry_roots(v: Seq<LatticeEntry>) -> Seq<Seq<(QuasiIdentifier, usize)>> {
    Seq::new(v.len(), |i: int| v[i].root@)
}

impl Incognito {
    /// The candidate nodes over one more quasi-identifier (see `joins_upto`):
    /// each pair of nodes of `s_prev` that agree on all but their last
    /// quasi-identifier, the first's last coming before the second's by
    /// index, gives the first node with the second's last quasi-identifier
    /// added at its level.
    fn join_candidates(s_prev: &Vec<LatticeEntry>, Ghost(qs): Ghost<Seq<QuasiIdentifier>>) -> (c: Vec<LatticeEntry>)
        requires
            forall|i: int| 0 <= i < s_prev@.len() ==> node_ok(#[trigger] s_prev@[i], qs),
        ensures
            forall|i: int| 0 <= i < c@.len() ==> node_ok(#[trigger] c@[i], qs),
            entry_roots(c@) == joins_upto(s_prev@, s_prev@.len() as int),
            forall|i: int| 0 <= i < c@.len() ==> (#[trigger] c@[i]).parent is None,
    {
        let ghost s = s_prev@;
        let mut c: Vec<LatticeEntry> = Vec::new();
        for pi in 0..s_prev.len()
            invariant
                s == s_prev@,
                forall|i: int| 0 <= i < s_prev@.len() ==> node_ok(#[trigger] s_prev@[i], qs),
                forall|i: int| 0 <= i < c@.len() ==> node_ok(#[trigger] c@[i], qs),
                forall|i: int| 0 <= i < c@.len() ==> (#[trigger] c@[i]).parent is None,
                entry_roots(c@) == joins_upto(s, pi as int),
        {
            let p = &s_prev[pi];
            assert(node_ok(s_prev@[pi as int], qs));
            let ghost pr = p.root@;
            let ghost c0 = entry_roots(c@);
            for qi in 0..s_prev.len()
                invariant
                    s == s_prev@,
                    pi < s_prev@.len(),
                    p == &s_prev@[pi as int],
                    pr == p.root@,
                    node_ok(*p, qs),
                    forall|i: int| 0 <= i < s_prev@.len() ==> node_ok(#[trigger] s_prev@[i], qs),
                    forall|i: int| 0 <= i < c@.len() ==> node_ok(#[trigger] c@[i], qs),
                    forall|i: int| 0 <= i < c@.len() ==> (#[trigger] c@[i]).parent is None,
                    entry_roots(c@) == c0 + joins_with(pr, s, qi as int),
            {
                let q = &s_prev[qi];
                assert(node_ok(s_prev@[qi as int], qs));
                let prefix = p.root.len() - 1;
                let mut agree = true;
                let mut j: usize = 0;
                while j < prefix && j < q.root.len()
                    invariant
                        0 <= j <= prefix,
                        j <= q.root@.len(),
                        prefix + 1 == p.root@.len(),
                        agree == agree_below(p.root@, q.root@, j as int),
                    decreases prefix - j,
                {
                    let ok = p.root[j].0.same(&q.root[j].0) && p.root[j].1 == q.root[j].1;
                    proof {
                        lemma_agree_below_step(p.root@, q.root@, j as int);
                    }
                    if !ok {
                        agree = false;
                    }
                    j += 1;
                }
                assert(agree == agree_but_last(p.root@, q.root@)) by {
                    if agree {
                        assert forall|j2: int| 0 <= j2 < p.root@.len() - 1 && j2 < q.root@.len() implies #[trigger] entry_agree(
                            p.root@,
                            q.root@,
                            j2,
                        ) by {
                            assert(j2 < j);
                        }
                    } else {
                        let j2 = choose|j2: int| 0 <= j2 < j && !#[trigger] entry_agree(p.root@, q.root@, j2);
                        assert(!entry_agree(p.root@, q.root@, j2));
                    }
                }
                let ghost before = c@;
                if agree {
                    let q_last = &q.root[q.root.len() - 1];
                    let p_last = &p.root[p.root.len() - 1];
                    if p_last.0.index < q_last.0.index {
                        let mut new_root = copy_root(&p.root);
                        let ghost old_root = new_root@;
                        insert_level(&mut new_root, q_last.0.copy(), q_last.1);
                        proof {
                            lemma_inserted_keys(old_root, q_last.0, q_last.1);
                        }
                        assert(keys_in(new_root@, qs)) by {
                            assert forall|i: int| 0 <= i < new_root@.len() implies qs.contains(#[trigger] new_root@[i].0) by {
                                if new_root@[i].0 == q_last.0 {
                                    assert(q.root@[q.root@.len() - 1].0 == q_last.0);
                                } else {
                                    let k = choose|k: int| 0 <= k < old_root.len() && old_root[k].0 == new_root@[i].0;
                                    assert(p.root@[k].0 == new_root@[i].0);
                                }
                            }
                        }
                        let subset = root_subset(&new_root);
                        assert(subset.0@.len() == new_root@.len());
                        let e = LatticeEntry::from_root(new_root, &subset);
                        c.push(e);
                        assert(entry_roots(c@) =~= entry_roots(before).push(e.root@));
                    }
                }
                proof {
                    assert(joins_with(pr, s, qi + 1) == if joinable(pr, s[qi as int].root@) {
                        joins_with(pr, s, qi as int).push(
                            inserted(pr, s[qi as int].root@.last().0, s[qi as int].root@.last().1),
                        )
                    } else {
                        joins_with(pr, s, qi as int)
                    });
                    if !(agree && p.root@.last().0.index < q.root@.last().0.index) {
                        assert(entry_roots(c@) =~= entry_roots(before));
                    }
                    assert(entry_roots(c@) =~= c0 + joins_with(pr, s, qi + 1));
                }
            }
            assert(joins_upto(s, pi + 1) == joins_upto(s, pi as int) + joins_with(pr, s, s.len() as int));
        }
        c
    }

    /// Keeps the first of each candidate whose every sub-node with one
    /// quasi-identifier fewer is among `s_prev` (see `pruned_upto`).
    fn prune_candidates(c: Vec<LatticeEntry>, s_prev: &Vec<LatticeEntry>, Ghost(qs): Ghost<Seq<QuasiIdentifier>>) -> (r: Vec<LatticeEntry>)
        requires
            forall|i: int| 0 <= i < c@.len() ==> node_ok(#[trigger] c@[i], qs),
        ensures
            forall|i: int| 0 <= i < r@.len() ==> node_ok(#[trigger] r@[i], qs),
            entry_roots(r@) == pruned_upto(c@, s_prev@, c@.len() as int),
    {
        let mut seen: Vec<LatticeEntry> = Vec::new();
        let mut kept: Vec<LatticeEntry> = Vec::new();
        assert(seen_ok(seen@, c@, 0)) by {
            reveal(seen_ok);
        }
        for i in 0..c.len()
            invariant
                forall|j: int| 0 <= j < c@.len() ==> node_ok(#[trigger] c@[j], qs),
                forall|j: int| 0 <= j < kept@.len() ==> node_ok(#[trigger] kept@[j], qs),
                entry_roots(kept@) == pruned_upto(c@, s_prev@, i as int),
                seen_ok(seen@, c@, i as int),
        {
            let cand = &c[i];
            let ghost before = kept@;
            let ghost cr = cand.root@;
            let found_before = contains_root(&seen, &cand.root);
            proof {
                lemma_seen_first(seen@, c@, i as int);
            }
            if !found_before {
                let ghost seen0 = seen@;
                let e0 = cand.copy();
                seen.push(e0);
                proof {
                    lemma_seen_push(seen0, c@, i as int, e0);
                }
                if all_subs_found(&cand.root, s_prev) {
                    assert(node_ok(c@[i as int], qs));
                    let e = cand.copy();
                    kept.push(e);
                    assert(entry_roots(kept@) =~= entry_roots(before).push(cr));
                } else {
                    assert(entry_roots(kept@) =~= entry_roots(before));
                }
            } else {
                proof {
                    lemma_seen_skip(seen@, c@, i as int);
                }
                assert(entry_roots(kept@) =~= entry_roots(before));
            }
        }
        kept
    }
}

/// Whether every node of `root` with one quasi-identifier dropped is among `s` (see `subs_found`).
fn all_subs_found(root: &Vec<(QuasiIdentifier, usize)>, s: &Vec<LatticeEntry>) -> (r: bool)
    ensures
        r == subs_found(root@, s@),
{
    let ghost cr = root@;
    let mut d: usize = 0;
    while d < root.len()
        invariant
            0 <= d <= root@.len(),
            cr == root@,
            forall|d2: int| 0 <= d2 < d ==> has_root(s@, #[trigger] dropped(cr, cr[d2].0)),
        decreases root@.len() - d,
    {
        let sub = drop_attr(root, &root[d].0);
        if !contains_root(s, &sub) {
            assert(!has_root(s@, dropped(cr, cr[d as int].0)));
            return false;
        }
        d += 1;
    }
    true
}

/// The nodes `seen` stand for the candidates `c[..i]`: each of these is the
/// same node as one of `seen`, and each of `seen` is one of these.
#[verifier::opaque]
pub open spec fn seen_ok(seen: Seq<LatticeEntry>, c: Seq<LatticeEntry>, i: int) -> bool {
    &&& forall|j: int| 0 <= j < i ==> has_root(seen, (#[trigger] c[j]).root@)
    &&& forall|m: int| 0 <= m < seen.len() ==> exists|j: int| 0 <= j < i && (#[trigger] seen[m]).root@ == (#[trigger] c[j]).root@
}

pub proof fn lemma_seen_first(seen: Seq<LatticeEntry>, c: Seq<LatticeEntry>, i: int)
    requires
        seen_ok(seen, c, i),
        0 <= i < c.len(),
    ensures
        has_root(seen, c[i].root@) == !first_of_its_node(c, i),
{
    reveal(seen_ok);
    let cr = c[i].root@;
    if has_root(seen, cr) {
        let m = choose|m: int| 0 <= m < seen.len() && same_root((#[trigger] seen[m]).root@, cr);
        let j = choose|j: int| 0 <= j < i && (#[trigger] seen[m]).root@ == (#[trigger] c[j]).root@;
        assert(same_root(c[j].root@, cr));
    } else {
        assert forall|j: int| 0 <= j < i implies !same_root((#[trigger] c[j]).root@, cr) by {
            assert(has_root(seen, c[j].root@));
            let m = choose|m: int| 0 <= m < seen.len() && same_root((#[trigger] seen[m]).root@, c[j].root@);
            if same_root(c[j].root@, cr) {
                lemma_same_root_equiv(seen[m].root@, c[j].root@, cr);
            }
        }
    }
}

pub proof fn lemma_seen_push(seen: Seq<LatticeEntry>, c: Seq<LatticeEntry>, i: int, e: LatticeEntry)
    requires
        seen_ok(seen, c, i),
        0 <= i < c.len(),
        e.root@ == c[i].root@,
    ensures
        seen_ok(seen.push(e), c, i + 1),
{
    reveal(seen_ok);
    let s2 = seen.push(e);
    assert forall|j: int| 0 <= j < i + 1 implies has_root(s2, (#[trigger] c[j]).root@) by {
        if j < i {
            let m = choose|m: int| 0 <= m < seen.len() && same_root((#[trigger] seen[m]).root@, c[j].root@);
            assert(s2[m] == seen[m]);
        } else {
            lemma_same_root_refl(c[j].root@);
            assert(s2[seen.len() as int] == e);
        }
    }
    assert forall|m: int| 0 <= m < s2.len() implies exists|j: int| 0 <= j < i + 1 && (#[trigger] s2[m]).root@ == (
    #[trigger] c[j]).root@ by {
        if m < seen.len() {
            assert(s2[m] == seen[m]);
            let j = choose|j: int| 0 <= j < i && (#[trigger] seen[m]).root@ == (#[trigger] c[j]).root@;
            assert(s2[m].root@ == c[j].root@);
        } else {
            assert(s2[m].root@ == c[i].root@);
        }
    }
}

pub proof fn lemma_seen_skip(seen: Seq<LatticeEntry>, c: Seq<LatticeEntry>, i: int)
    requires
        seen_ok(seen, c, i),
        0 <= i < c.len(),
        has_root(seen, c[i].root@),
    ensures
        seen_ok(seen, c, i + 1),
{
    reveal(seen_ok);
    assert forall|m: int| 0 <= m < seen.len() implies exists|j: int| 0 <= j < i + 1 && (#[trigger] seen[m]).root@ == (
    #[trigger] c[j]).root@ by {
        let j = choose|j: int| 0 <= j < i && (#[trigger] seen[m]).root@ == (#[trigger] c[j]).root@;
    }
}


/// The rows' cells on the quasi-identifiers, each with its row number.
pub open spec fn row_entries(rows: Seq<Vec<Option<GenValue>>>) -> FreqModel {
    Seq::new(rows.len(), |j: int| (key_view(rows[j]@), j))
}

/// A node over the quasi-identifiers `keys` lists them.
pub proof fn lemma_zip_root_keys(keys: Seq<QuasiIdentifier>, hs: Seq<usize>)
    ensures
        root_keys(zip_root(keys, hs)) == keys,
{
    assert(root_keys(zip_root(keys, hs)) =~= keys);
}

/// Nodes listing the same quasi-identifiers list them among the same ones.
pub proof fn lemma_keys_in_same(a: Seq<(QuasiIdentifier, usize)>, b: Seq<(QuasiIdentifier, usize)>, qs: Seq<QuasiIdentifier>)
    requires
        root_keys(a) == root_keys(b),
        keys_in(a, qs),
    ensures
        keys_in(b, qs),
        a.len() == b.len(),
{
    assert(root_keys(a).len() == a.len() && root_keys(b).len() == b.len());
    assert forall|i: int| 0 <= i < b.len() implies qs.contains(#[trigger] b[i].0) by {
        assert(root_keys(a)[i] == a[i].0);
        assert(root_keys(b)[i] == b[i].0);
        assert(qs.contains(a[i].0));
    }
}

/// Every node within the height limits above `target` that lies at or above
/// a node of `found` is a node of `v`.
#[verifier::opaque]
pub open spec fn lists_covered(
    v: Seq<LatticeEntry>,
    found: Seq<LatticeEntry>,
    target: Seq<(QuasiIdentifier, usize)>,
    depths: Seq<(QuasiIdentifier, usize)>,
) -> bool {
    forall|x: Seq<(QuasiIdentifier, usize)>|
        in_box(x, target, depths) && #[trigger] covered(found, x) ==> lists_node(v, x)
}

/// Every node within the height limits above `target` whose frequency set,
/// rolled up from `rf`, is k-anonymous is a node of `v`.
#[verifier::opaque]
pub open spec fn lists_anonymous(
    v: Seq<LatticeEntry>,
    target: Seq<(QuasiIdentifier, usize)>,
    depths: Seq<(QuasiIdentifier, usize)>,
    rf: FreqModel,
    dims: DimensionTables,
    k: int,
) -> bool {
    forall|x: Seq<(QuasiIdentifier, usize)>|
        in_box(x, target, depths) && #[trigger] anon_at(x, rf, dims, k) ==> lists_node(v, x)
}

/// The expansion of a node over one quasi-identifier: its levels for
/// the heights `c` of the product of its ranges.
pub proof fn lemma_single_cartesian(root: Seq<(QuasiIdentifier, usize)>, depths: Seq<(QuasiIdentifier, usize)>, h: int)
    requires
        root.len() == 1,
        depth_of(depths, root[0].0) is Some,
        root[0].1 <= h <= depth_of(depths, root[0].0)->0,
    ensures
        exists|t: int|
            0 <= t < cartesian(search_ranges(root, depths)).len() && zip_root(
                root_keys(root),
                #[trigger] cartesian(search_ranges(root, depths))[t],
            ) == seq![(root[0].0, h as usize)],
        forall|t: int|
            0 <= t < cartesian(search_ranges(root, depths)).len() ==> root[0].1 <= (#[trigger] cartesian(
                search_ranges(root, depths),
            )[t])[0] && cartesian(search_ranges(root, depths))[t].len() == 1,
{
    let rs = search_ranges(root, depths);
    let d = depth_of(depths, root[0].0)->0;
    lemma_depth_bound(depths, root[0].0, depths.len() as int);
    lemma_cartesian_members(rs);
    lemma_cartesian_len(rs);
    assert(rs.len() == 1);
    assert(rs[0] == height_seq(root[0].1 as int, d));
    lemma_height_seq(root[0].1 as int, d);
    assert(rs[0].contains(h as usize));
    lemma_cartesian_contains(rs, seq![h as usize]);
    let t = choose|t: int| 0 <= t < cartesian(rs).len() && #[trigger] cartesian(rs)[t] == seq![h as usize];
    assert(zip_root(root_keys(root), cartesian(rs)[t]) =~= seq![(root[0].0, h as usize)]);
    assert forall|t2: int| 0 <= t2 < cartesian(rs).len() implies root[0].1 <= (#[trigger] cartesian(rs)[t2])[0]
        && cartesian(rs)[t2].len() == 1 by {
        assert(rs[0].contains(cartesian(rs)[t2][0]));
    }
}

/// Adding the expansion `ex` of a node `entry` over one quasi-identifier, whose
/// frequency set is k-anonymous, keeps a k-anonymous node below every node.
#[verifier::spinoff_prover]
pub proof fn lemma_single_expansion_below(
    entry: LatticeEntry,
    before: Seq<LatticeEntry>,
    ex: Seq<LatticeEntry>,
    after: Seq<LatticeEntry>,
    depths: Seq<(QuasiIdentifier, usize)>,
    rf: FreqModel,
    dims: DimensionTables,
    k: int,
)
    requires
        entry.root@.len() == 1,
        depth_of(depths, entry.root@[0].0) is Some,
        anon_at(entry.root@, rf, dims, k),
        ex.len() == cartesian(search_ranges(entry.root@, depths)).len(),
        forall|i: int|
            0 <= i < ex.len() ==> (#[trigger] ex[i]).root@ == zip_root(
                root_keys(entry.root@),
                cartesian(search_ranges(entry.root@, depths))[i],
            ),
        after == before + ex,
        anon_below(before, rf, dims, k),
    ensures
        anon_below(after, rf, dims, k),
{
    reveal(anon_below);
    let rs = search_ranges(entry.root@, depths);
    let hf = entry.root@[0].1;
    if ex.len() > 0 {
        let d = depth_of(depths, entry.root@[0].0)->0;
        lemma_depth_bound(depths, entry.root@[0].0, depths.len() as int);
        lemma_cartesian_members(rs);
        lemma_cartesian_len(rs);
        assert(rs[0] == height_seq(hf as int, d));
        lemma_height_seq(hf as int, d);
        assert(rs[0].contains(cartesian(rs)[0][0]));
        assert(hf <= d);
        lemma_single_cartesian(entry.root@, depths, entry.root@[0].1 as int);
        let t0 = choose|t: int|
            0 <= t < cartesian(rs).len() && zip_root(root_keys(entry.root@), #[trigger] cartesian(rs)[t]) == seq![
                (entry.root@[0].0, hf),
            ];
        assert(ex[t0].root@ =~= entry.root@);
        assert(after[before.len() + t0] == ex[t0]);
        assert forall|i: int| 0 <= i < after.len() implies #[trigger] has_anon_below(after, i, rf, dims, k) by {
            if i < before.len() {
                assert(after[i] == before[i]);
                assert(has_anon_below(before, i, rf, dims, k));
                let j = choose|j: int|
                    0 <= j < before.len() && below((#[trigger] before[j]).root@, before[i].root@) && anon_at(
                        before[j].root@,
                        rf,
                        dims,
                        k,
                    );
                assert(after[j] == before[j]);
            } else {
                let i2 = i - before.len();
                assert(after[i] == ex[i2]);
                let c = cartesian(rs)[i2];
                assert(hf <= c[0]);
                assert(ex[i2].root@[0].1 == c[0]);
                assert(below(after[before.len() + t0].root@, after[i].root@));
            }
        }
    } else {
        assert(after =~= before);
    }
}

/// Adding the expansion `ex` of the found node `entries[e]` over one
/// quasi-identifier lists every node above the first `e + 1` found nodes.
#[verifier::spinoff_prover]
pub proof fn lemma_single_expansion_lists(
    before: Seq<LatticeEntry>,
    ex: Seq<LatticeEntry>,
    after: Seq<LatticeEntry>,
    target: Seq<(QuasiIdentifier, usize)>,
    depths: Seq<(QuasiIdentifier, usize)>,
    entries: Seq<LatticeEntry>,
    e: int,
)
    requires
        0 <= e < entries.len(),
        lists_covered(before, entries.take(e), target, depths),
        entries[e].root@.len() == 1,
        target.len() == 1,
        entries[e].root@[0].0 == target[0].0,
        depth_of(depths, target[0].0) is Some,
        ex.len() == cartesian(search_ranges(entries[e].root@, depths)).len(),
        forall|i: int|
            0 <= i < ex.len() ==> (#[trigger] ex[i]).root@ == zip_root(
                root_keys(entries[e].root@),
                cartesian(search_ranges(entries[e].root@, depths))[i],
            ),
        after == before + ex,
    ensures
        lists_covered(after, entries.take(e + 1), target, depths),
{
    reveal(lists_covered);
    let root = entries[e].root@;
    assert forall|x: Seq<(QuasiIdentifier, usize)>| in_box(x, target, depths) && #[trigger] covered(entries.take(e + 1), x) implies lists_node(
        after,
        x,
    ) by {
        let t1 = choose|t: int| 0 <= t < entries.take(e + 1).len() && below((#[trigger] entries.take(e + 1)[t]).root@, x);
        if t1 < e {
            assert(entries.take(e)[t1] == entries.take(e + 1)[t1]);
            assert(covered(entries.take(e), x));
            let j0 = choose|j: int| 0 <= j < before.len() && (#[trigger] before[j]).root@ == x;
            assert(after[j0] == before[j0]);
        } else {
            assert(entries.take(e + 1)[t1] == entries[e]);
            lemma_single_cartesian(root, depths, x[0].1 as int);
            let t = choose|t: int|
                0 <= t < cartesian(search_ranges(root, depths)).len() && zip_root(
                    root_keys(root),
                    #[trigger] cartesian(search_ranges(root, depths))[t],
                ) == seq![(root[0].0, x[0].1)];
            assert(ex[t].root@ =~= x);
            assert(after[before.len() + t] == ex[t]);
        }
    }
}

/// Once every found node is listed with what lies above it, every
/// k-anonymous node above `target` that the search covers is listed.
pub proof fn lemma_single_lists_all(
    v: Seq<LatticeEntry>,
    found: Seq<LatticeEntry>,
    target: Seq<(QuasiIdentifier, usize)>,
    depths: Seq<(QuasiIdentifier, usize)>,
    rf: FreqModel,
    dims: DimensionTables,
    k: int,
)
    requires
        lists_covered(v, found, target, depths),
        forall|x: Seq<(QuasiIdentifier, usize)>|
            in_box(x, target, depths) && #[trigger] anon_at(x, rf, dims, k) ==> covered(found, x),
    ensures
        lists_anonymous(v, target, depths, rf, dims, k),
{
    reveal(lists_covered);
    reveal(lists_anonymous);
}

/// With one quasi-identifier `qs[0]`, the search can start: `base` is over
/// `qs`, which has a dimension table, and the frequency set of `qs[0]` at
/// height zero (see `make_frequency_set`) is k-anonymous.
pub open spec fn single_unchanged_ok(base: &FrequencyTable, qs: Seq<QuasiIdentifier>, dims: DimensionTables, k: int) -> bool {
    &&& qs.len() == 1
    &&& base.qis.0@ == qs
    &&& keys_have_tables(dims, qs)
    &&& k_anonymous_spec(group_sum(projected(freq_view(base.entries@), seq![0int])), k)
}

impl Incognito {
    /// Every row's quasi-identifier cells generalized to the levels of `node`
    /// (see `rollup_upto`), each with the row it comes from: a row whose cell
    /// has several parents gives one row per parent.
    pub fn materialize(
        rows: &Vec<Vec<Option<GenValue>>>,
        qs: &Vec<QuasiIdentifier>,
        node: &LatticeEntry,
        dimension_tables: &DimensionTables,
    ) -> (r: Result<Vec<FreqEntry>, AlgorithmError>)
        requires
            dimension_tables.wf(),
            forall|j: int| 0 <= j < rows@.len() ==> (#[trigger] rows@[j])@.len() == qs@.len(),
        ensures
            match rollup_upto(root_keys(node.root@), qs@, node.root@, row_entries(rows@), *dimension_tables, node.root@.len() as int) {
                Ok(f) => r matches Ok(v) && freq_view(v@) == f && keys_of_width(f, qs@.len() as int),
                Err(e) => r == Err::<Vec<FreqEntry>, AlgorithmError>(e),
            },
    {
        let ghost re = row_entries(rows@);
        let mut es: Vec<FreqEntry> = Vec::new();
        for j in 0..rows.len()
            invariant
                re == row_entries(rows@),
                forall|j2: int| 0 <= j2 < rows@.len() ==> (#[trigger] rows@[j2])@.len() == qs@.len(),
                freq_view(es@) == re.take(j as int),
                keys_of_width(freq_view(es@), qs@.len() as int),
        {
            let ghost before = es@;
            let e = FreqEntry { key: copy_key(&rows[j]), count: j as u64 };
            es.push(e);
            proof {
                lemma_freq_view_push(before, e);
                assert(re.take(j as int + 1) =~= re.take(j as int).push(re[j as int]));
                assert forall|i: int| 0 <= i < freq_view(es@).len() implies (#[trigger] freq_view(es@)[i]).0.len()
                    == qs@.len() by {
                    if i < before.len() {
                        assert(freq_view(es@)[i] == freq_view(before)[i]);
                    }
                }
            }
        }
        assert(re.take(rows@.len() as int) =~= re);
        let attrs = root_subset(&node.root);
        Self::generalize_all(&attrs.0, qs, &node.root, es, dimension_tables, Ghost(qs@.len() as int))
    }

    /// The nodes found for one quasi-identifier each, expanded to every node above them.
    #[verifier::spinoff_prover]
    #[verifier::rlimit(60)]
    fn single_attribute_nodes(
        base: &FrequencyTable,
        qs: &Vec<QuasiIdentifier>,
        dgh_depths: &Vec<(QuasiIdentifier, usize)>,
        dimension_tables: &DimensionTables,
        k: u32,
    ) -> (r: Result<Vec<LatticeEntry>, AlgorithmError>)
        requires
            base.wf(),
            dimension_tables.wf(),
            dgh_depths@.len() == qs@.len(),
            forall|i: int| 0 <= i < qs@.len() ==> (#[trigger] dgh_depths@[i]).0 == qs@[i],
        ensures
            r matches Ok(v) ==> forall|i: int|
                0 <= i < v@.len() ==> node_ok(#[trigger] v@[i], qs@) && anon_node(v@[i], k as int),
            r matches Ok(v) ==> forall|i: int| 0 <= i < v@.len() ==> (#[trigger] v@[i]).root@.len() == 1,
            base.qis.0@ == qs@ && keys_have_tables(*dimension_tables, qs@) ==> r is Ok,
            single_unchanged_ok(base, qs@, *dimension_tables, k as int) ==> (r matches Ok(v) && exists|i: int|
                0 <= i < v@.len() && (#[trigger] v@[i]).root@ == seq![(qs@[0], 0usize)]),
            qs@.len() == 1 && base.qis.0@ == qs@ ==> (r matches Ok(v) ==> {
                let rf = group_sum(projected(freq_view(base.entries@), seq![0int]));
                &&& lists_anonymous(v@, seq![(qs@[0], 0usize)], dgh_depths@, rf, *dimension_tables, k as int)
                &&& anon_below(v@, rf, *dimension_tables, k as int)
            }),
    {
        let ghost ok = base.qis.0@ == qs@ && keys_have_tables(*dimension_tables, qs@);
        let ghost ok1 = single_unchanged_ok(base, qs@, *dimension_tables, k as int);
        let ghost okq = qs@.len() == 1 && base.qis.0@ == qs@;
        let ghost rf1 = group_sum(projected(freq_view(base.entries@), seq![0int]));
        let ghost target = seq![(qs@[0], 0usize)];
        let mut s_prev: Vec<LatticeEntry> = Vec::new();
        assert(anon_below(s_prev@, rf1, *dimension_tables, k as int)) by {
            reveal(anon_below);
        }
        for i in 0..qs.len()
            invariant
                base.wf(),
                dimension_tables.wf(),
                dgh_depths@.len() == qs@.len(),
                forall|i2: int| 0 <= i2 < qs@.len() ==> (#[trigger] dgh_depths@[i2]).0 == qs@[i2],
                forall|j: int| 0 <= j < s_prev@.len() ==> node_ok(#[trigger] s_prev@[j], qs@),
                forall|j: int| 0 <= j < s_prev@.len() ==> anon_node(#[trigger] s_prev@[j], k as int),
                forall|j: int| 0 <= j < s_prev@.len() ==> (#[trigger] s_prev@[j]).root@.len() == 1,
                ok == (base.qis.0@ == qs@ && keys_have_tables(*dimension_tables, qs@)),
                ok1 == single_unchanged_ok(base, qs@, *dimension_tables, k as int),
                ok1 ==> ok && qs@.len() == 1,
                target == seq![(qs@[0], 0usize)],
                ok1 && i > 0 ==> exists|j: int| 0 <= j < s_prev@.len() && (#[trigger] s_prev@[j]).root@ == target,
                okq == (qs@.len() == 1 && base.qis.0@ == qs@),
                rf1 == group_sum(projected(freq_view(base.entries@), seq![0int])),
                okq && i > 0 ==> lists_anonymous(s_prev@, target, dgh_depths@, rf1, *dimension_tables, k as int),
                okq ==> anon_below(s_prev@, rf1, *dimension_tables, k as int),
        {
            let q = &qs[i];
            let mut levels: Vec<(QuasiIdentifier, usize)> = Vec::new();
            levels.push((q.copy(), 0));
            let single = root_subset(&levels);
            assert(keys_in(levels@, qs@)) by {
                assert(levels@[0].0 == qs@[i as int]);
            }
            let root = LatticeEntry::from_root(levels, &single);
            proof {
                if ok {
                    assert(single.0@[0] == qs@[i as int]);
                    lemma_att_position_found(qs@, qs@[i as int], 0, i as int);
                    lemma_att_positions_ok(base.qis.0@, single.0@, 1);
                    assert(has_table(*dimension_tables, qs@[i as int]));
                    assert(keys_have_tables(*dimension_tables, root_keys(root.root@)));
                }
            }
            let freq = Self::make_frequency_set(base, &single)?;
            proof {
                lemma_depths_cover_from(root.root@, qs@, dgh_depths@);
                if okq {
                    assert(att_positions_upto(base.qis.0@, single.0@, 0) == Ok::<Seq<int>, AlgorithmError>(Seq::empty()));
                    assert(att_position(qs@, single.0@[0].incognito_colname@, 0) == Some(0int));
                    assert(Seq::<int>::empty().push(0int) =~= seq![0int]);
                    assert(att_positions_upto(base.qis.0@, single.0@, 1) == Ok::<Seq<int>, AlgorithmError>(seq![0int]));
                    assert(root.root@ =~= target);
                    assert(freq_view(freq.entries@) == rf1);
                }
                if ok1 {
                    assert(att_positions_upto(base.qis.0@, single.0@, 0) == Ok::<Seq<int>, AlgorithmError>(Seq::empty()));
                    assert(att_position(qs@, single.0@[0].incognito_colname@, 0) == Some(0int));
                    assert(Seq::<int>::empty().push(0int) =~= seq![0int]);
                    assert(att_positions_upto(base.qis.0@, single.0@, 1) == Ok::<Seq<int>, AlgorithmError>(seq![0int]));
                    assert(root.root@ =~= target);
                    assert(root_table(root.root@, freq_view(freq.entries@), *dimension_tables) == Ok::<
                        FreqModel,
                        AlgorithmError,
                    >(freq_view(freq.entries@)));
                }
            }
            let ghost root0 = root.root@;
            let entries = Self::search_subset(root, freq, dgh_depths, dimension_tables, k)?;
            proof {
                if okq {
                    reveal(lists_covered);
                    assert(entries@.take(0) =~= Seq::<LatticeEntry>::empty());
                }
            }
            for e in 0..entries.len()
                invariant
                    forall|j: int| 0 <= j < entries@.len() ==> found_ok(#[trigger] entries@[j], single.0@, k as int),
                    single.0@.len() == 1,
                    single.0@[0] == qs@[i as int],
                    i < qs@.len(),
                    dgh_depths@.len() == qs@.len(),
                    forall|i2: int| 0 <= i2 < qs@.len() ==> (#[trigger] dgh_depths@[i2]).0 == qs@[i2],
                    forall|j: int| 0 <= j < s_prev@.len() ==> node_ok(#[trigger] s_prev@[j], qs@),
                    forall|j: int| 0 <= j < s_prev@.len() ==> anon_node(#[trigger] s_prev@[j], k as int),
                    forall|j: int| 0 <= j < s_prev@.len() ==> (#[trigger] s_prev@[j]).root@.len() == 1,
                    ok1 ==> qs@.len() == 1 && i == 0 && entries@.len() > 0 && entries@[0].root@ == target,
                    target == seq![(qs@[0], 0usize)],
                    ok1 && e > 0 ==> exists|j: int| 0 <= j < s_prev@.len() && (#[trigger] s_prev@[j]).root@ == target,
                    okq ==> i == 0 && root0 == target && freq_view(freq.entries@) == rf1,
                    okq ==> forall|t: int| 0 <= t < entries@.len() ==> root_table(
                        (#[trigger] entries@[t]).root@,
                        rf1,
                        *dimension_tables,
                    ) == Ok::<FreqModel, AlgorithmError>(freq_view(entries@[t].freq_table.entries@)),
                    okq ==> lists_covered(s_prev@, entries@.take(e as int), target, dgh_depths@),
                    okq ==> anon_below(s_prev@, rf1, *dimension_tables, k as int),
                    rf1 == group_sum(projected(freq_view(base.entries@), seq![0int])),
                    okq == (qs@.len() == 1 && base.qis.0@ == qs@),
            {
                let entry = &entries[e];
                assert(found_ok(entries@[e as int], single.0@, k as int));
                proof {
                    assert(root_keys(entry.root@).len() == entry.root@.len());
                    assert(keys_in(entry.root@, qs@)) by {
                        assert forall|i2: int| 0 <= i2 < entry.root@.len() implies qs@.contains(#[trigger] entry.root@[i2].0) by {
                            assert(root_keys(entry.root@)[i2] == entry.root@[i2].0);
                        }
                    }
                    lemma_depths_cover_from(entry.root@, qs@, dgh_depths@);
                }
                let mut expanded = Self::expand_search(entry, dgh_depths);
                proof {
                    assert forall|j: int| 0 <= j < expanded@.len() implies node_ok(#[trigger] expanded@[j], qs@)
                        && anon_node(expanded@[j], k as int) && expanded@[j].root@.len() == 1 by {
                        let c = cartesian(search_ranges(entry.root@, dgh_depths@))[j];
                        lemma_zip_root_keys(root_keys(entry.root@), c);
                        lemma_keys_in_same(entry.root@, expanded@[j].root@, qs@);
                    }
                    if ok1 && e == 0 {
                        let rs = search_ranges(entry.root@, dgh_depths@);
                        assert(rs[0][0] == 0usize);
                        lemma_cartesian_contains(rs, seq![0usize]);
                        let t = choose|t: int| 0 <= t < cartesian(rs).len() && #[trigger] cartesian(rs)[t] == seq![0usize];
                        assert(expanded@[t].root@ =~= target);
                    }
                }
                let ghost before = s_prev@;
                let ghost ex = expanded@;
                s_prev.append(&mut expanded);
                assert forall|j: int| 0 <= j < s_prev@.len() implies node_ok(#[trigger] s_prev@[j], qs@) && anon_node(
                    s_prev@[j],
                    k as int,
                ) && s_prev@[j].root@.len() == 1 by {
                    if j >= before.len() {
                        assert(s_prev@[j] == ex[j - before.len()]);
                    } else {
                        assert(s_prev@[j] == before[j]);
                    }
                }
                proof {
                    if okq {
                        assert(anon_at(entry.root@, rf1, *dimension_tables, k as int)) by {
                            assert(root_table(entries@[e as int].root@, rf1, *dimension_tables) == Ok::<FreqModel, AlgorithmError>(
                                freq_view(entries@[e as int].freq_table.entries@),
                            ));
                        }
                        assert(root_keys(entry.root@)[0] == entry.root@[0].0);
                        assert(depth_of(dgh_depths@, entry.root@[0].0) is Some);
                        lemma_single_expansion_below(*entry, before, ex, s_prev@, dgh_depths@, rf1, *dimension_tables, k as int);
                        lemma_single_expansion_lists(before, ex, s_prev@, target, dgh_depths@, entries@, e as int);
                    }
                    if ok1 && e > 0 {
                        let j0 = choose|j: int| 0 <= j < before.len() && (#[trigger] before[j]).root@ == target;
                        assert(s_prev@[j0] == before[j0]);
                    }
                    if ok1 && e == 0 {
                        let rs = search_ranges(entry.root@, dgh_depths@);
                        let t = choose|t: int| 0 <= t < cartesian(rs).len() && #[trigger] cartesian(rs)[t] == seq![0usize];
                        assert(s_prev@[before.len() + t] == ex[t]);
                    }
                }
            }
            proof {
                if okq {
                    assert(entries@.take(entries@.len() as int) =~= entries@);
                    assert(distinct_keys(root0));
                    lemma_single_lists_all(s_prev@, entries@, target, dgh_depths@, rf1, *dimension_tables, k as int);
                }
            }
        }
        Ok(s_prev)
    }
}


impl Incognito {
    /// The nodes found over candidates of one more quasi-identifier, each
    /// expanded to every node above it.
    fn grow_nodes(
        s_prev: &Vec<LatticeEntry>,
        base: &FrequencyTable,
        qs: &Vec<QuasiIdentifier>,
        dgh_depths: &Vec<(QuasiIdentifier, usize)>,
        dimension_tables: &DimensionTables,
        k: u32,
    ) -> (r: Result<Vec<LatticeEntry>, AlgorithmError>)
        requires
            base.wf(),
            dimension_tables.wf(),
            dgh_depths@.len() == qs@.len(),
            forall|i: int| 0 <= i < qs@.len() ==> (#[trigger] dgh_depths@[i]).0 == qs@[i],
            forall|i: int| 0 <= i < s_prev@.len() ==> node_ok(#[trigger] s_prev@[i], qs@),
        ensures
            r matches Ok(v) ==> forall|i: int|
                0 <= i < v@.len() ==> node_ok(#[trigger] v@[i], qs@) && anon_node(v@[i], k as int),
            base.qis.0@ == qs@ && keys_have_tables(*dimension_tables, qs@) ==> r is Ok,
    {
        let ghost ok = base.qis.0@ == qs@ && keys_have_tables(*dimension_tables, qs@);
        let sorted = sort_by_height(s_prev, Ghost(qs@));
        let joined = Self::join_candidates(&sorted, Ghost(qs@));
        let cands = Self::prune_candidates(joined, &sorted, Ghost(qs@));
        let mut s_i: Vec<LatticeEntry> = Vec::new();
        for c in 0..cands.len()
            invariant
                base.wf(),
                dimension_tables.wf(),
                dgh_depths@.len() == qs@.len(),
                forall|i: int| 0 <= i < qs@.len() ==> (#[trigger] dgh_depths@[i]).0 == qs@[i],
                forall|i: int| 0 <= i < cands@.len() ==> node_ok(#[trigger] cands@[i], qs@),
                forall|j: int| 0 <= j < s_i@.len() ==> node_ok(#[trigger] s_i@[j], qs@),
                forall|j: int| 0 <= j < s_i@.len() ==> anon_node(#[trigger] s_i@[j], k as int),
                ok == (base.qis.0@ == qs@ && keys_have_tables(*dimension_tables, qs@)),
        {
            let cand = &cands[c];
            assert(node_ok(cands@[c as int], qs@));
            let subset = root_subset(&cand.root);
            proof {
                if ok {
                    assert forall|i: int| 0 <= i < subset.0@.len() implies att_position(
                        base.qis.0@,
                        (#[trigger] subset.0@[i]).incognito_colname@,
                        0,
                    ) is Some && has_table(*dimension_tables, subset.0@[i]) by {
                        assert(subset.0@[i] == cand.root@[i].0);
                        assert(qs@.contains(cand.root@[i].0));
                        lemma_member_position(qs@, subset.0@[i]);
                        let m = choose|m: int| 0 <= m < qs@.len() && qs@[m] == subset.0@[i];
                        assert(has_table(*dimension_tables, qs@[m]));
                    }
                    lemma_att_positions_ok(base.qis.0@, subset.0@, subset.0@.len() as int);
                    assert(keys_have_tables(*dimension_tables, root_keys(cand.root@)));
                }
            }
            let freq = Self::make_frequency_set(base, &subset)?;
            proof {
                lemma_depths_cover_from(cand.root@, qs@, dgh_depths@);
            }
            let entries = Self::search_subset(cand.copy(), freq, dgh_depths, dimension_tables, k)?;
            for e in 0..entries.len()
                invariant
                    forall|j: int| 0 <= j < entries@.len() ==> found_ok(#[trigger] entries@[j], subset.0@, k as int),
                    subset.0@ == root_keys(cand.root@),
                    node_ok(*cand, qs@),
                    dgh_depths@.len() == qs@.len(),
                    forall|i2: int| 0 <= i2 < qs@.len() ==> (#[trigger] dgh_depths@[i2]).0 == qs@[i2],
                    forall|j: int| 0 <= j < s_i@.len() ==> node_ok(#[trigger] s_i@[j], qs@),
                    forall|j: int| 0 <= j < s_i@.len() ==> anon_node(#[trigger] s_i@[j], k as int),
            {
                let entry = &entries[e];
                assert(found_ok(entries@[e as int], subset.0@, k as int));
                proof {
                    lemma_keys_in_same(cand.root@, entry.root@, qs@);
                    lemma_depths_cover_from(entry.root@, qs@, dgh_depths@);
                }
                let mut expanded = Self::expand_search(entry, dgh_depths);
                proof {
                    assert forall|j: int| 0 <= j < expanded@.len() implies node_ok(#[trigger] expanded@[j], qs@)
                        && anon_node(expanded@[j], k as int) by {
                        let cc = cartesian(search_ranges(entry.root@, dgh_depths@))[j];
                        lemma_zip_root_keys(root_keys(entry.root@), cc);
                        lemma_keys_in_same(entry.root@, expanded@[j].root@, qs@);
                    }
                }
                let ghost before = s_i@;
                let ghost ex = expanded@;
                s_i.append(&mut expanded);
                assert forall|j: int| 0 <= j < s_i@.len() implies node_ok(#[trigger] s_i@[j], qs@) && anon_node(
                    s_i@[j],
                    k as int,
                ) by {
                    if j >= before.len() {
                        assert(s_i@[j] == ex[j - before.len()]);
                    } else {
                        assert(s_i@[j] == before[j]);
                    }
                }
            }
        }
        Ok(s_i)
    }

    /// The lattice nodes over the most quasi-identifiers the search reached:
    /// single quasi-identifiers first, then candidates of one more at a time
    /// while some are found.
    #[verifier::spinoff_prover]
    #[verifier::rlimit(40)]
    fn lattice_nodes(
        base: &FrequencyTable,
        qs: &Vec<QuasiIdentifier>,
        dgh_depths: &Vec<(QuasiIdentifier, usize)>,
        dimension_tables: &DimensionTables,
        k: u32,
    ) -> (r: Result<Vec<LatticeEntry>, AlgorithmError>)
        requires
            base.wf(),
            dimension_tables.wf(),
            dgh_depths@.len() == qs@.len(),
            forall|i: int| 0 <= i < qs@.len() ==> (#[trigger] dgh_depths@[i]).0 == qs@[i],
        ensures
            r matches Ok(v) ==> forall|i: int|
                0 <= i < v@.len() ==> node_ok(#[trigger] v@[i], qs@) && anon_node(v@[i], k as int),
            qs@.len() == 1 ==> (r matches Ok(v) ==> forall|i: int| 0 <= i < v@.len() ==> (#[trigger] v@[i]).root@.len() == 1),
            base.qis.0@ == qs@ && keys_have_tables(*dimension_tables, qs@) ==> r is Ok,
            single_unchanged_ok(base, qs@, *dimension_tables, k as int) ==> (r matches Ok(v) && exists|i: int|
                0 <= i < v@.len() && (#[trigger] v@[i]).root@ == seq![(qs@[0], 0usize)]),
            qs@.len() == 1 && base.qis.0@ == qs@ ==> (r matches Ok(v) ==> {
                let rf = group_sum(projected(freq_view(base.entries@), seq![0int]));
                &&& lists_anonymous(v@, seq![(qs@[0], 0usize)], dgh_depths@, rf, *dimension_tables, k as int)
                &&& anon_below(v@, rf, *dimension_tables, k as int)
            }),
    {
        let ghost ok = base.qis.0@ == qs@ && keys_have_tables(*dimension_tables, qs@);
        let ghost ok1 = single_unchanged_ok(base, qs@, *dimension_tables, k as int);
        let ghost okq = qs@.len() == 1 && base.qis.0@ == qs@;
        let ghost rf1 = group_sum(projected(freq_view(base.entries@), seq![0int]));
        let mut s_prev = Self::single_attribute_nodes(base, qs, dgh_depths, dimension_tables, k)?;
        // one round per subset size from two up to all of them
        let rounds: usize = if qs.len() > 0 {
            qs.len() - 1
        } else {
            0
        };
        for _round in 0..rounds
            invariant
                base.wf(),
                dimension_tables.wf(),
                dgh_depths@.len() == qs@.len(),
                forall|i: int| 0 <= i < qs@.len() ==> (#[trigger] dgh_depths@[i]).0 == qs@[i],
                forall|i: int| 0 <= i < s_prev@.len() ==> node_ok(#[trigger] s_prev@[i], qs@),
                forall|i: int| 0 <= i < s_prev@.len() ==> anon_node(#[trigger] s_prev@[i], k as int),
                ok == (base.qis.0@ == qs@ && keys_have_tables(*dimension_tables, qs@)),
                rounds == (if qs@.len() > 0 { qs@.len() - 1 } else { 0 }),
                qs@.len() == 1 ==> forall|i: int| 0 <= i < s_prev@.len() ==> (#[trigger] s_prev@[i]).root@.len() == 1,
                ok1 == single_unchanged_ok(base, qs@, *dimension_tables, k as int),
                ok1 ==> qs@.len() == 1 && exists|i: int|
                    0 <= i < s_prev@.len() && (#[trigger] s_prev@[i]).root@ == seq![(qs@[0], 0usize)],
                okq == (qs@.len() == 1 && base.qis.0@ == qs@),
                rf1 == group_sum(projected(freq_view(base.entries@), seq![0int])),
                okq ==> lists_anonymous(s_prev@, seq![(qs@[0], 0usize)], dgh_depths@, rf1, *dimension_tables, k as int),
                okq ==> anon_below(s_prev@, rf1, *dimension_tables, k as int),
        {
            let s_i = Self::grow_nodes(&s_prev, base, qs, dgh_depths, dimension_tables, k)?;
            if s_i.len() == 0 {
                return Ok(s_prev);
            }
            s_prev = s_i;
        }
        Ok(s_prev)
    }

    /// The first node whose levels have the least sum.
    fn best_node(nodes: &Vec<LatticeEntry>) -> (b: usize)
        requires
            nodes@.len() > 0,
        ensures
            b < nodes@.len(),
            forall|i: int| 0 <= i < nodes@.len() ==> height_sum(nodes@[b as int].root@) <= height_sum(
                (#[trigger] nodes@[i]).root@,
            ),
            forall|i: int| 0 <= i < b ==> height_sum(nodes@[b as int].root@) < height_sum((#[trigger] nodes@[i]).root@),
    {
        let mut b: usize = 0;
        let mut bs = height_sum_exec(&nodes[0].root);
        for i in 1..nodes.len()
            invariant
                b < i,
                i <= nodes@.len(),
                bs == height_sum(nodes@[b as int].root@),
                forall|j: int| 0 <= j < i ==> bs <= height_sum((#[trigger] nodes@[j]).root@),
                forall|j: int| 0 <= j < b ==> bs < height_sum((#[trigger] nodes@[j]).root@),
        {
            let s = height_sum_exec(&nodes[i].root);
            if s < bs {
                b = i;
                bs = s;
            }
        }
        b
    }
}

/// The dataset's rows on the quasi-identifiers `qs`, each with its row number.
pub open spec fn dataset_rows(ds: Dataset, qs: Seq<QuasiIdentifier>) -> FreqModel {
    Seq::new(ds.df.height as nat, |j: int| (row_key(ds, qs, j), j))
}

/// The dataset's rows grouped by their cells on `qs`, each group with its number of rows.
pub open spec fn row_groups(ds: Dataset, qs: Seq<QuasiIdentifier>) -> FreqModel {
    group_sum(Seq::new(ds.df.height as nat, |j: int| (row_key(ds, qs, j), 1int)))
}

/// With the one quasi-identifier `qs[0]`, the dataset as it stands is
/// k-anonymous and the search can run: every dimension table builds, `qs[0]`
/// is one of the dataset's quasi-identifiers, the table has at least `k`
/// rows, the rows grouped by their cell of `qs[0]` have at least `k` rows in
/// each group, and the table left at height zero (see `assembled`) is k-anonymous.
pub open spec fn single_unchanged_anonymous(ds: Dataset, qs: Seq<QuasiIdentifier>, k: int) -> bool {
    &&& qs.len() == 1
    &&& ds.df.height >= k
    &&& forall|i: int| 0 <= i < ds.qis.0@.len() ==> (#[trigger] dim_table_spec(ds, ds.qis.0@[i])) is Ok
    &&& exists|m: int| 0 <= m < ds.qis.0@.len() && same_qi_key(#[trigger] ds.qis.0@[m], qs[0])
    &&& k_anonymous_spec(group_sum(projected(row_groups(ds, qs), seq![0int])), k)
    &&& is_k_anonymous(qs, assembled(ds, qs, qs, dataset_rows(ds, qs)), k)
}

/// With the one quasi-identifier `qs[0]`: the frequency set of `root`,
/// rolled up from that of `qs[0]` at height zero, is k-anonymous, and no
/// node between height zero and the height of `qs[0]`'s taxonomy whose
/// frequency set is k-anonymous has a smaller total height.
pub open spec fn least_anonymous_single(
    ds: Dataset,
    qs: Seq<QuasiIdentifier>,
    root: Seq<(QuasiIdentifier, usize)>,
    dims: DimensionTables,
    k: int,
) -> bool {
    let rf = group_sum(projected(row_groups(ds, qs), seq![0int]));
    &&& anon_at(root, rf, dims, k)
    &&& forall|x: Seq<(QuasiIdentifier, usize)>|
        in_box(x, seq![(qs[0], 0usize)], qi_depths(ds, qs)) && #[trigger] anon_at(x, rf, dims, k) ==> height_sum(root)
            <= height_sum(x)
}

/// The sum of the levels of a node at one level is that level.
pub proof fn lemma_height_sum_single(r: Seq<(QuasiIdentifier, usize)>)
    requires
        r.len() == 1,
    ensures
        height_sum(r) == r[0].1,
{
    assert(height_sum_upto(r, 0) == 0);
}

/// Over one quasi-identifier, a node of least total height among the listed
/// nodes is k-anonymous.
#[verifier::spinoff_prover]
#[verifier::rlimit(30)]
pub proof fn lemma_least_single_anon(
    nodes: Seq<LatticeEntry>,
    b: int,
    qs: Seq<QuasiIdentifier>,
    rf: FreqModel,
    dims: DimensionTables,
    k: int,
)
    requires
        qs.len() == 1,
        0 <= b < nodes.len(),
        forall|i: int| 0 <= i < nodes.len() ==> node_ok(#[trigger] nodes[i], qs),
        forall|i: int| 0 <= i < nodes.len() ==> (#[trigger] nodes[i]).root@.len() == 1,
        forall|i: int| 0 <= i < nodes.len() ==> height_sum(nodes[b].root@) <= height_sum((#[trigger] nodes[i]).root@),
        anon_below(nodes, rf, dims, k),
    ensures
        anon_at(nodes[b].root@, rf, dims, k),
{
    let broot = nodes[b].root@;
    assert(has_anon_below(nodes, b, rf, dims, k)) by {
        reveal(anon_below);
    }
    let j = choose|j: int|
        0 <= j < nodes.len() && below((#[trigger] nodes[j]).root@, broot) && anon_at(nodes[j].root@, rf, dims, k);
    let jr = nodes[j].root@;
    lemma_height_sum_single(broot);
    lemma_height_sum_single(jr);
    assert(height_sum(broot) <= height_sum(jr));
    assert(node_ok(nodes[j], qs) && node_ok(nodes[b], qs));
    assert(qs.contains(broot[0].0));
    assert(qs.contains(jr[0].0));
    assert(jr =~= broot);
}

/// Over one quasi-identifier, no k-anonymous node within the limits has a
/// smaller total height than a node of least total height among the listed nodes.
#[verifier::spinoff_prover]
pub proof fn lemma_least_single_min(
    nodes: Seq<LatticeEntry>,
    b: int,
    qs: Seq<QuasiIdentifier>,
    depths: Seq<(QuasiIdentifier, usize)>,
    rf: FreqModel,
    dims: DimensionTables,
    k: int,
)
    requires
        qs.len() == 1,
        0 <= b < nodes.len(),
        forall|i: int| 0 <= i < nodes.len() ==> height_sum(nodes[b].root@) <= height_sum((#[trigger] nodes[i]).root@),
        lists_anonymous(nodes, seq![(qs[0], 0usize)], depths, rf, dims, k),
    ensures
        forall|x: Seq<(QuasiIdentifier, usize)>|
            in_box(x, seq![(qs[0], 0usize)], depths) && #[trigger] anon_at(x, rf, dims, k) ==> height_sum(nodes[b].root@)
                <= height_sum(x),
{
    assert forall|x: Seq<(QuasiIdentifier, usize)>|
        in_box(x, seq![(qs[0], 0usize)], depths) && #[trigger] anon_at(x, rf, dims, k) implies height_sum(nodes[b].root@)
            <= height_sum(x) by {
        assert(lists_node(nodes, x)) by {
            reveal(lists_anonymous);
        }
        let i = choose|i: int| 0 <= i < nodes.len() && (#[trigger] nodes[i]).root@ == x;
        assert(height_sum(nodes[b].root@) <= height_sum(nodes[i].root@));
    }
}

/// With the one quasi-identifier `qs[0]`, the search can run and its choice
/// gives a k-anonymous table: every dimension table builds, `qs[0]` is one of
/// the dataset's quasi-identifiers, the table has at least `k` rows, and
/// with the dataset's dimension tables, the lowest height `h` within the
/// height of `qs[0]`'s taxonomy at which the frequency set of `qs[0]` is
/// k-anonymous gives, generalized to `h`, a k-anonymous table (see `assembled`).
pub open spec fn single_generalizable(ds: Dataset, qs: Seq<QuasiIdentifier>, k: int) -> bool {
    let rf = group_sum(projected(row_groups(ds, qs), seq![0int]));
    &&& qs.len() == 1
    &&& ds.df.height >= k
    &&& forall|i: int| 0 <= i < ds.qis.0@.len() ==> (#[trigger] dim_table_spec(ds, ds.qis.0@[i])) is Ok
    &&& exists|m: int| 0 <= m < ds.qis.0@.len() && same_qi_key(#[trigger] ds.qis.0@[m], qs[0])
    &&& forall|dims: DimensionTables|
        #[trigger] dims_of(ds, dims) ==> exists|h: usize|
            {
                &&& h <= qi_depths(ds, qs)[0].1
                &&& #[trigger] anon_at(seq![(qs[0], h)], rf, dims, k)
                &&& forall|h2: usize| h2 < h ==> !#[trigger] anon_at(seq![(qs[0], h2)], rf, dims, k)
                &&& generalization_at(ds, qs, seq![(qs[0], h)], dims) matches Ok(ms) && is_k_anonymous(
                    qs,
                    assembled(ds, qs, qs, ms),
                    k,
                )
            }
}

/// Under `single_generalizable`, the least height it names is in the lattice
/// above height zero, so a search that lists every k-anonymous node there lists some node.
#[verifier::spinoff_prover]
pub proof fn lemma_single_generalizable_listed(
    ds: Dataset,
    qs: Seq<QuasiIdentifier>,
    nodes: Seq<LatticeEntry>,
    depths: Seq<(QuasiIdentifier, usize)>,
    dims: DimensionTables,
    k: int,
)
    requires
        single_generalizable(ds, qs, k),
        dims_of(ds, dims),
        depths == qi_depths(ds, qs),
        lists_anonymous(
            nodes,
            seq![(qs[0], 0usize)],
            depths,
            group_sum(projected(row_groups(ds, qs), seq![0int])),
            dims,
            k,
        ),
    ensures
        nodes.len() > 0,
{
    reveal(lists_anonymous);
    let rf = group_sum(projected(row_groups(ds, qs), seq![0int]));
    let h = choose|h: usize|
        {
            &&& h <= qi_depths(ds, qs)[0].1
            &&& #[trigger] anon_at(seq![(qs[0], h)], rf, dims, k)
            &&& forall|h2: usize| h2 < h ==> !#[trigger] anon_at(seq![(qs[0], h2)], rf, dims, k)
            &&& generalization_at(ds, qs, seq![(qs[0], h)], dims) matches Ok(ms) && is_k_anonymous(
                qs,
                assembled(ds, qs, qs, ms),
                k,
            )
        };
    let x = seq![(qs[0], h)];
    assert(same_qi(qs[0], qs[0]));
    assert(depth_upto(depths, qs[0], 0) is None);
    assert(depth_of(depths, qs[0]) == Some(depths[0].1 as int));
    assert(in_box(x, seq![(qs[0], 0usize)], depths));
    assert(lists_node(nodes, x));
}

/// Under `single_generalizable`, a node of least total height among nodes
/// that include every k-anonymous one and are all k-anonymous above a
/// k-anonymous node is the node of the least height it names.
#[verifier::spinoff_prover]
pub proof fn lemma_single_generalizable_choice(
    ds: Dataset,
    qs: Seq<QuasiIdentifier>,
    nodes: Seq<LatticeEntry>,
    b: int,
    depths: Seq<(QuasiIdentifier, usize)>,
    dims: DimensionTables,
    k: int,
)
    requires
        single_generalizable(ds, qs, k),
        dims_of(ds, dims),
        depths == qi_depths(ds, qs),
        0 <= b < nodes.len(),
        node_ok(nodes[b], qs),
        nodes[b].root@.len() == 1,
        anon_at(nodes[b].root@, group_sum(projected(row_groups(ds, qs), seq![0int])), dims, k),
        forall|x: Seq<(QuasiIdentifier, usize)>|
            in_box(x, seq![(qs[0], 0usize)], depths) && #[trigger] anon_at(
                x,
                group_sum(projected(row_groups(ds, qs), seq![0int])),
                dims,
                k,
            ) ==> height_sum(nodes[b].root@) <= height_sum(x),
    ensures
        exists|h: usize|
            {
                &&& nodes[b].root@ == seq![(qs[0], h)]
                &&& generalization_at(ds, qs, seq![(qs[0], h)], dims) matches Ok(ms) && is_k_anonymous(
                    qs,
                    assembled(ds, qs, qs, ms),
                    k,
                )
            },
{
    let rf = group_sum(projected(row_groups(ds, qs), seq![0int]));
    let h = choose|h: usize|
        {
            &&& h <= qi_depths(ds, qs)[0].1
            &&& #[trigger] anon_at(seq![(qs[0], h)], rf, dims, k)
            &&& forall|h2: usize| h2 < h ==> !#[trigger] anon_at(seq![(qs[0], h2)], rf, dims, k)
            &&& generalization_at(ds, qs, seq![(qs[0], h)], dims) matches Ok(ms) && is_k_anonymous(
                qs,
                assembled(ds, qs, qs, ms),
                k,
            )
        };
    let x = seq![(qs[0], h)];
    assert(same_qi(qs[0], qs[0]));
    assert(depth_upto(depths, qs[0], 0) is None);
    assert(depth_of(depths, qs[0]) == Some(depths[0].1 as int));
    assert(in_box(x, seq![(qs[0], 0usize)], depths));
    let broot = nodes[b].root@;
    lemma_height_sum_single(broot);
    lemma_height_sum_single(x);
    assert(qs.contains(broot[0].0));
    let hb = broot[0].1;
    assert(broot =~= seq![(qs[0], hb)]);
    if hb < h {
        assert(!anon_at(seq![(qs[0], hb)], rf, dims, k));
    }
    assert(broot =~= x);
}

/// A key stored among `keys[..i]` is found.
pub proof fn lemma_last_key_found(keys: Seq<QuasiIdentifier>, qi: QuasiIdentifier, i: int, m: int)
    requires
        0 <= m < i <= keys.len(),
        same_qi_key(keys[m], qi),
    ensures
        last_key_upto(keys, qi, i) is Some,
    decreases i,
{
    if m < i - 1 && !same_qi_key(keys[i - 1], qi) {
        lemma_last_key_found(keys, qi, i - 1, m);
    }
}

/// `dims` holds the dimension table of each of the dataset's quasi-identifiers,
/// in order (see `dim_table_spec`).
pub open spec fn dims_of(ds: Dataset, dims: DimensionTables) -> bool {
    &&& dims.wf()
    &&& dims.keys@ == ds.qis.0@
    &&& forall|i: int|
        0 <= i < dims.keys@.len() ==> dim_table_spec(ds, ds.qis.0@[i]) == Ok::<Seq<(GenKey, GenKey)>, AlgorithmError>(
            edges_view(#[trigger] dims.tables@[i].edges@),
        )
}

/// The full-domain generalization of the dataset's rows to the levels of
/// `root` (see `rollup_upto`): each row's cells on `qs`, those of the
/// quasi-identifiers of `root` generalized, with the row it comes from.
pub open spec fn generalization_at(
    ds: Dataset,
    qs: Seq<QuasiIdentifier>,
    root: Seq<(QuasiIdentifier, usize)>,
    dims: DimensionTables,
) -> Result<FreqModel, AlgorithmError> {
    rollup_upto(root_keys(root), qs, root, dataset_rows(ds, qs), dims, root.len() as int)
}

impl AnonymizationAlgorithm for Incognito {
    fn name(&self) -> (r: &str)
        ensures
            r@ == "Incognito"@,
    {
        "Incognito"
    }

    /// Full-domain generalization of the quasi-identifiers: fails when
    /// `k < 2`, when the columns cannot be worked on (see `columns_failure`),
    /// when the dataset is empty or has fewer than `k` rows,
    /// when a dimension table cannot be built, or when no generalization is
    /// k-anonymous; else the table of `assembled` over the rows materialized
    /// at the chosen node (the one of least total height the lattice search
    /// found), returned only once it is checked k-anonymous on every
    /// quasi-identifier. With one quasi-identifier, the chosen node's
    /// frequency set is k-anonymous and no node with a k-anonymous frequency
    /// set has a smaller total height; and the result is `Ok` when the
    /// dataset is k-anonymous as it stands (see `single_unchanged_anonymous`),
    /// and whenever the least height at which that frequency set is
    /// k-anonymous gives a k-anonymous table (see `single_generalizable`).
    fn anonymize(&self, k: u32, dataset: Dataset, quasi_identifiers: QuasiIdentifiers) -> (r: Result<
        Dataset,
        AlgorithmError,
    >)
        ensures
            k < 2 ==> r == Err::<Dataset, AlgorithmError>(AlgorithmError::KTooSmall(k)),
            k >= 2 && columns_failure(dataset, quasi_identifiers.0@) is Some ==> r == Err::<Dataset, AlgorithmError>(
                columns_failure(dataset, quasi_identifiers.0@)->0,
            ),
            k >= 2 && columns_failure(dataset, quasi_identifiers.0@) is None && dataset.df.height == 0 ==> r == Err::<
                Dataset,
                AlgorithmError,
            >(AlgorithmError::EmptyDataset),
            k >= 2 && columns_failure(dataset, quasi_identifiers.0@) is None && 0 < dataset.df.height < k ==> r
                == Err::<Dataset, AlgorithmError>(AlgorithmError::NoGeneralization(k)),
            k >= 2 && columns_failure(dataset, quasi_identifiers.0@) is None && single_unchanged_anonymous(
                dataset,
                quasi_identifiers.0@,
                k as int,
            ) ==> r is Ok,
            k >= 2 && columns_failure(dataset, quasi_identifiers.0@) is None && single_generalizable(
                dataset,
                quasi_identifiers.0@,
                k as int,
            ) ==> r is Ok,
            r matches Ok(d) ==> {
                &&& d.qis == dataset.qis
                &&& d.taxonomies == dataset.taxonomies
                &&& d.df.wf()
                &&& exists|root: Seq<(QuasiIdentifier, usize)>, dims: DimensionTables, ms: FreqModel|
                    #![trigger generalization_at(dataset, quasi_identifiers.0@, root, dims), assembled(dataset, quasi_identifiers.0@, root_keys(root), ms)]
                    {
                        &&& root.len() > 0
                        &&& keys_in(root, quasi_identifiers.0@)
                        &&& dims_of(dataset, dims)
                        &&& generalization_at(dataset, quasi_identifiers.0@, root, dims) == Ok::<
                            FreqModel,
                            AlgorithmError,
                        >(ms)
                        &&& d.df@ == assembled(dataset, quasi_identifiers.0@, root_keys(root), ms)
                        &&& quasi_identifiers.0@.len() == 1 ==> least_anonymous_single(
                            dataset,
                            quasi_identifiers.0@,
                            root,
                            dims,
                            k as int,
                        )
                    }
                &&& is_k_anonymous(quasi_identifiers.0@, d.df@, k as int)
            },
    {
        if k < 2 {
            return Err(AlgorithmError::KTooSmall(k));
        }
        let qs = &quasi_identifiers.0;
        let cols = Self::check_columns(&dataset, qs)?;
        if dataset.df.height == 0 {
            return Err(AlgorithmError::EmptyDataset);
        }
        if dataset.df.height < k as usize {
            return Err(AlgorithmError::NoGeneralization(k));
        }
        let rows = Self::row_keys(&dataset, qs, &cols);
        let base = Self::base_table(&rows, qs);
        let dims = Self::generate_dimension_tables(&dataset)?;
        let depths = depths_for(&dataset, qs);
        let ghost c1 = single_unchanged_anonymous(dataset, qs@, k as int);
        let ghost c2 = single_generalizable(dataset, qs@, k as int);
        let ghost target = seq![(qs@[0], 0usize)];
        let ghost rf = group_sum(projected(row_groups(dataset, qs@), seq![0int]));
        proof {
            assert(Seq::new(rows@.len(), |j: int| (key_view(rows@[j]@), 1int)) =~= Seq::new(
                dataset.df.height as nat,
                |j: int| (row_key(dataset, qs@, j), 1int),
            ));
            assert(freq_view(base.entries@) == row_groups(dataset, qs@));
            assert(dims_of(dataset, dims));
            if c2 {
                let m = choose|m: int| 0 <= m < dataset.qis.0@.len() && same_qi_key(#[trigger] dataset.qis.0@[m], qs@[0]);
                lemma_last_key_found(dims.keys@, qs@[0], dims.keys@.len() as int, m);
                assert(keys_have_tables(dims, qs@));
            }
            if c1 {
                let m = choose|m: int| 0 <= m < dataset.qis.0@.len() && same_qi_key(#[trigger] dataset.qis.0@[m], qs@[0]);
                lemma_last_key_found(dims.keys@, qs@[0], dims.keys@.len() as int, m);
                assert(keys_have_tables(dims, qs@));
                assert(single_unchanged_ok(&base, qs@, dims, k as int));
            }
        }
        let nodes = Self::lattice_nodes(&base, qs, &depths, &dims, k)?;
        proof {
            if c2 {
                lemma_single_generalizable_listed(dataset, qs@, nodes@, depths@, dims, k as int);
            }
        }
        if nodes.len() == 0 {
            return Err(AlgorithmError::NoGeneralization(k));
        }
        let b = Self::best_node(&nodes);
        let best = &nodes[b];
        assert(node_ok(nodes@[b as int], qs@));
        proof {
            if c1 {
                let t = choose|i: int| 0 <= i < nodes@.len() && (#[trigger] nodes@[i]).root@ == target;
                assert(height_sum_upto(target, 0) == 0);
                assert(height_sum(nodes@[t].root@) == 0);
                let broot = best.root@;
                assert(broot.len() == 1);
                assert(height_sum_upto(broot, 0) == 0);
                assert(broot[0].1 == 0);
                assert(qs@.contains(broot[0].0));
                assert(broot =~= target);
                assert(root_height(target, qs@[0], 0) == Some(0int));
                assert(rollup_upto(root_keys(target), qs@, target, row_entries(rows@), dims, 0) == Ok::<
                    FreqModel,
                    AlgorithmError,
                >(row_entries(rows@)));
                assert(rollup_upto(root_keys(target), qs@, target, row_entries(rows@), dims, 1) == Ok::<
                    FreqModel,
                    AlgorithmError,
                >(row_entries(rows@)));
            }
        }
        proof {
            if qs@.len() == 1 {
                lemma_least_single_anon(nodes@, b as int, qs@, rf, dims, k as int);
                lemma_least_single_min(nodes@, b as int, qs@, depths@, rf, dims, k as int);
            }
            if c2 {
                lemma_single_generalizable_choice(dataset, qs@, nodes@, b as int, depths@, dims, k as int);
                let h = choose|h: usize|
                    {
                        &&& nodes@[b as int].root@ == seq![(qs@[0], h)]
                        &&& generalization_at(dataset, qs@, seq![(qs@[0], h)], dims) matches Ok(ms) && is_k_anonymous(
                            qs@,
                            assembled(dataset, qs@, qs@, ms),
                            k as int,
                        )
                    };
                assert(row_entries(rows@) =~= dataset_rows(dataset, qs@));
                assert(best.root@ == seq![(qs@[0], h)]);
            }
        }
        let ms = Self::materialize(&rows, qs, best, &dims)?;
        assert(row_entries(rows@) =~= dataset_rows(dataset, qs@));
        let best_keys = root_subset(&best.root);
        proof {
            lemma_rollup_counts(
                root_keys(best.root@),
                qs@,
                best.root@,
                row_entries(rows@),
                dims,
                best.root@.len() as int,
                dataset.df.height as int,
            );
            assert forall|i: int| 0 <= i < best_keys.0@.len() implies (#[trigger] att_position(
                qs@,
                best_keys.0@[i].incognito_colname@,
                0,
            )) is Some by {
                assert(best_keys.0@[i] == best.root@[i].0);
                assert(qs@.contains(best.root@[i].0));
                let j = choose|j: int| 0 <= j < qs@.len() && qs@[j] == best.root@[i].0;
                lemma_att_position_found(qs@, best_keys.0@[i], 0, j);
            }
            assert forall|j: int| 0 <= j < ms@.len() implies (#[trigger] ms@[j]).count < dataset.df.height by {
                assert(freq_view(ms@)[j] == entry_view(ms@[j]));
            }
        }
        let table = Self::assemble(&dataset, qs, &best_keys.0, &ms);
        let ghost fm = freq_view(ms@);
        assert(table@ == assembled(dataset, quasi_identifiers.0@, best_keys.0@, fm));
        assert(generalization_at(dataset, qs@, best.root@, dims) == Ok::<FreqModel, AlgorithmError>(fm));
        assert(dims_of(dataset, dims));
        let ghost broot = best.root@;
        assert(broot.len() > 0 && keys_in(broot, qs@));
        assert(best_keys.0@ == root_keys(broot));
        assert(exists|root: Seq<(QuasiIdentifier, usize)>, dd: DimensionTables, mm: FreqModel|
            #![trigger generalization_at(dataset, quasi_identifiers.0@, root, dd), assembled(dataset, quasi_identifiers.0@, root_keys(root), mm)]
            {
                &&& root.len() > 0
                &&& keys_in(root, quasi_identifiers.0@)
                &&& dims_of(dataset, dd)
                &&& generalization_at(dataset, quasi_identifiers.0@, root, dd) == Ok::<FreqModel, AlgorithmError>(mm)
                &&& table@ == assembled(dataset, quasi_identifiers.0@, root_keys(root), mm)
                &&& quasi_identifiers.0@.len() == 1 ==> least_anonymous_single(
                    dataset,
                    quasi_identifiers.0@,
                    root,
                    dd,
                    k as int,
                )
            });
        proof {
            if c1 {
                assert(root_keys(broot) =~= qs@);
                assert(fm == dataset_rows(dataset, qs@));
                assert(table@ == assembled(dataset, qs@, qs@, dataset_rows(dataset, qs@)));
            }
        }
        proof {
            if c2 {
                let h = choose|h: usize|
                    {
                        &&& nodes@[b as int].root@ == seq![(qs@[0], h)]
                        &&& generalization_at(dataset, qs@, seq![(qs@[0], h)], dims) matches Ok(ms) && is_k_anonymous(
                            qs@,
                            assembled(dataset, qs@, qs@, ms),
                            k as int,
                        )
                    };
                assert(broot == seq![(qs@[0], h)]);
                assert(root_keys(broot) =~= qs@);
                assert(table@ == assembled(dataset, qs@, qs@, fm));
            }
        }
        if !table_is_k_anonymous(qs, &table, k) {
            return Err(AlgorithmError::NoGeneralization(k));
        }
        Ok(Dataset::from_anonymized(table, dataset.qis, dataset.taxonomies))
    }
}

} // verus!
