//! Categorical taxonomies: a generalization hierarchy over the values of a
//! categorical column, stored as a flat list of nodes linked by id.
use vstd::prelude::*;
use crate::taxonomy::TaxonomyError;
use crate::text::{clone_opt_string, clone_strings, str_eq_string, is_digit, lemma_nat_decimal, lemma_nat_decimal_injective, nat_decimal, opt_string_view, push_decimal, push_str_chars, string_from_chars, strings_view};

verus! {

/// A hierarchy definition: a label and the labels it generalizes.
pub struct CategoricalHierarchy {
    pub col_name: String,
    pub children: Vec<CategoricalHierarchy>,
}

impl CategoricalHierarchy {
    /// A hierarchy node with the given label and no children.
    pub fn new(col_name: &str) -> (h: Self)
        ensures
            h.col_name@ == col_name@,
            h.children@.len() == 0,
    {
        Self { col_name: col_name.to_owned(), children: Vec::new() }
    }

    /// The same node with its children replaced by `children`.
    pub fn with_children(self, children: Vec<CategoricalHierarchy>) -> (h: Self)
        ensures
            h.col_name == self.col_name,
            h.children == children,
    {
        let mut me = self;
        me.children = children;
        me
    }
}

/// Depth of a hierarchy: 0 for a leaf, else one more than its deepest child.
pub open spec fn hier_depth(h: CategoricalHierarchy) -> nat
    decreases h, 0nat,
{
    if h.children@.len() == 0 {
        0
    } else {
        1 + forest_depth(h.children@, 0)
    }
}

/// Greatest depth among `hs[i..]` (0 when empty).
pub open spec fn forest_depth(hs: Seq<CategoricalHierarchy>, i: int) -> nat
    decreases hs, hs.len() - i,
{
    if 0 <= i < hs.len() {
        let a = hier_depth(hs[i]);
        let b = forest_depth(hs, i + 1);
        if a >= b { a } else { b }
    } else {
        0
    }
}

pub proof fn lemma_forest_depth_ge(hs: Seq<CategoricalHierarchy>, i: int, j: int)
    requires
        0 <= i <= j < hs.len(),
    ensures
        hier_depth(hs[j]) <= forest_depth(hs, i),
    decreases j - i,
{
    if i < j {
        lemma_forest_depth_ge(hs, i + 1, j);
    }
}

/// One node of a categorical taxonomy.
#[derive(Clone, Debug)]
pub struct CategoricalNode {
    pub id: String,
    pub value: String,
    pub level: usize,
    pub children: Vec<String>,
    pub parent: Option<String>,
}

/// The mathematical content of a node.
pub ghost struct NodeModel {
    pub id: Seq<char>,
    pub value: Seq<char>,
    pub level: int,
    pub children: Seq<Seq<char>>,
    pub parent: Option<Seq<char>>,
}

impl View for CategoricalNode {
    type V = NodeModel;

    open spec fn view(&self) -> NodeModel {
        NodeModel {
            id: self.id@,
            value: self.value@,
            level: self.level as int,
            children: strings_view(self.children@),
            parent: opt_string_view(self.parent),
        }
    }
}

/// The models of a list of nodes.
pub open spec fn nodes_view(v: Seq<CategoricalNode>) -> Seq<NodeModel> {
    v.map_values(|n: CategoricalNode| n@)
}

/// A categorical taxonomy over the values of one column.
#[derive(Clone, Debug)]
pub struct CategoricalTaxonomy {
    pub nodes: Vec<CategoricalNode>,
    pub col_name: String,
    pub root_id: String,
}

/// A categorical taxonomy under a name of its own rather than a column's:
/// its nodes, its name and the id of its root.
pub struct CategoricalTaxomony {
    pub nodes: Vec<CategoricalNode>,
    pub name: String,
    pub root_id: String,
}

/// The id given to the node for label `name` at depth `depth`: `{col}_{depth}_{name}`.
pub open spec fn node_id_spec(col: Seq<char>, depth: int, name: Seq<char>) -> Seq<char> {
    col + seq!['_'] + nat_decimal(depth as nat) + seq!['_'] + name
}

/// Index of the first node at or after `i` whose id is `id`.
pub open spec fn first_id_from(ns: Seq<NodeModel>, id: Seq<char>, i: int) -> Option<int>
    decreases ns.len() - i,
{
    if 0 <= i < ns.len() {
        if ns[i].id == id {
            Some(i)
        } else {
            first_id_from(ns, id, i + 1)
        }
    } else {
        None
    }
}

/// Index of the first node at or after `i` whose value is `v`.
pub open spec fn first_value_from(ns: Seq<NodeModel>, v: Seq<char>, i: int) -> Option<int>
    decreases ns.len() - i,
{
    if 0 <= i < ns.len() {
        if ns[i].value == v {
            Some(i)
        } else {
            first_value_from(ns, v, i + 1)
        }
    } else {
        None
    }
}

/// Stores `n` under its id: it replaces the node that has that id, or is appended.
pub open spec fn insert_node_spec(ns: Seq<NodeModel>, n: NodeModel) -> Seq<NodeModel> {
    match first_id_from(ns, n.id, 0) {
        Some(j) => ns.update(j, n),
        None => ns.push(n),
    }
}

/// Ids of the nodes built for the hierarchies `hs` at depth `depth`.
pub open spec fn child_ids_spec(col: Seq<char>, hs: Seq<CategoricalHierarchy>, depth: int) -> Seq<Seq<char>> {
    hs.map_values(|c: CategoricalHierarchy| node_id_spec(col, depth, c.col_name@))
}

/// The nodes after building the subtree for `h` at depth `depth` under `parent`:
/// the children first, in order, then the node itself.
pub open spec fn build_tree_spec(
    ns: Seq<NodeModel>,
    col: Seq<char>,
    h: CategoricalHierarchy,
    parent: Option<Seq<char>>,
    depth: int,
) -> Seq<NodeModel>
    decreases h, 0nat,
{
    let id = node_id_spec(col, depth, h.col_name@);
    let after_children = build_forest_spec(ns, col, h.children@, 0, id, depth + 1);
    insert_node_spec(
        after_children,
        NodeModel {
            id,
            value: h.col_name@,
            level: depth,
            children: child_ids_spec(col, h.children@, depth + 1),
            parent,
        },
    )
}

/// The nodes after building the subtrees for `hs[i..]`, in order, under `parent`.
pub open spec fn build_forest_spec(
    ns: Seq<NodeModel>,
    col: Seq<char>,
    hs: Seq<CategoricalHierarchy>,
    i: int,
    parent: Seq<char>,
    depth: int,
) -> Seq<NodeModel>
    decreases hs, hs.len() - i,
{
    if 0 <= i < hs.len() {
        build_forest_spec(build_tree_spec(ns, col, hs[i], Some(parent), depth), col, hs, i + 1, parent, depth)
    } else {
        ns
    }
}

/// The id of the node for label `name` at depth `level`.
pub fn make_node_id(col_name: &str, level: usize, name: &String) -> (id: String)
    ensures
        id@ == node_id_spec(col_name@, level as int, name@),
{
    let mut cs: Vec<char> = Vec::new();
    push_str_chars(&mut cs, col_name);
    cs.push('_');
    push_decimal(&mut cs, level as u64);
    cs.push('_');
    push_str_chars(&mut cs, name.as_str());
    let id = string_from_chars(&cs);
    assert(id@ =~= node_id_spec(col_name@, level as int, name@));
    id
}

pub proof fn lemma_first_id_skip(ns: Seq<NodeModel>, id: Seq<char>, a: int, b: int)
    requires
        0 <= a <= b <= ns.len(),
        forall|j: int| a <= j < b ==> ns[j].id != id,
    ensures
        first_id_from(ns, id, a) == first_id_from(ns, id, b),
    decreases b - a,
{
    if a < b {
        lemma_first_id_skip(ns, id, a + 1, b);
    }
}

/// Stores `node` under its id, replacing the node with the same id if there is one.
pub fn insert_node(nodes: &mut Vec<CategoricalNode>, node: CategoricalNode)
    ensures
        nodes_view(final(nodes)@) == insert_node_spec(nodes_view(old(nodes)@), node@),
{
    let ghost ns = nodes_view(nodes@);
    let n = nodes.len();
    let mut i: usize = 0;
    while i < n
        invariant
            n == nodes@.len(),
            nodes_view(nodes@) == ns,
            ns == nodes_view(old(nodes)@),
            0 <= i <= n,
            forall|j: int| 0 <= j < i ==> ns[j].id != node@.id,
        decreases n - i,
    {
        if nodes[i].id == node.id {
            proof {
                lemma_first_id_skip(ns, node@.id, 0, i as int);
            }
            nodes.set(i, node);
            assert(nodes_view(nodes@) =~= insert_node_spec(ns, node@));
            return;
        }
        i += 1;
    }
    proof {
        lemma_first_id_skip(ns, node@.id, 0, n as int);
    }
    nodes.push(node);
    assert(nodes_view(nodes@) =~= insert_node_spec(ns, node@));
}

impl CategoricalTaxonomy {
    /// Builds the nodes for `hierarchy` at depth `level` under `parent_id`,
    /// children first, and returns the id of the node built for `hierarchy`.
    pub fn build_tree(
        nodes: &mut Vec<CategoricalNode>,
        col_name: &str,
        hierarchy: &CategoricalHierarchy,
        parent_id: Option<String>,
        level: usize,
    ) -> (id: String)
        requires
            level + hier_depth(*hierarchy) <= usize::MAX,
        ensures
            nodes_view(final(nodes)@) == build_tree_spec(
                nodes_view(old(nodes)@),
                col_name@,
                *hierarchy,
                opt_string_view(parent_id),
                level as int,
            ),
            id@ == node_id_spec(col_name@, level as int, hierarchy.col_name@),
        decreases hierarchy,
    {
        let node_id = make_node_id(col_name, level, &hierarchy.col_name);
        let ghost ns0 = nodes_view(nodes@);
        let ghost hs = hierarchy.children@;
        let mut children_ids: Vec<String> = Vec::new();
        let n = hierarchy.children.len();
        let mut i: usize = 0;
        while i < n
            invariant
                n == hs.len(),
                hs == hierarchy.children@,
                0 <= i <= n,
                n > 0 ==> level + 1 + forest_depth(hs, 0) <= usize::MAX,
                build_forest_spec(nodes_view(nodes@), col_name@, hs, i as int, node_id@, level + 1)
                    == build_forest_spec(ns0, col_name@, hs, 0, node_id@, level + 1),
                strings_view(children_ids@) == child_ids_spec(col_name@, hs.take(i as int), level + 1),
            decreases n - i,
        {
            proof {
                lemma_forest_depth_ge(hs, 0, i as int);
            }
            let ghost prev_ids = children_ids@;
            assert(strings_view(prev_ids).len() == prev_ids.len());
            assert(child_ids_spec(col_name@, hs.take(i as int), level + 1).len() == i);
            let child_id = Self::build_tree(
                nodes,
                col_name,
                &hierarchy.children[i],
                Some(node_id.clone()),
                level + 1,
            );
            children_ids.push(child_id);
            proof {
                assert(hs.take(i as int + 1) =~= hs.take(i as int).push(hs[i as int]));
                assert(children_ids@ == prev_ids.push(child_id));
                let cv = strings_view(children_ids@);
                let want = child_ids_spec(col_name@, hs.take(i as int + 1), level + 1);
                assert(cv.len() == want.len());
                assert forall|j: int| 0 <= j < cv.len() implies cv[j] == want[j] by {
                    if j < i {
                        assert(cv[j] == strings_view(prev_ids)[j]);
                    } else {
                        assert(cv[j] == child_id@);
                    }
                }
                assert(strings_view(children_ids@) =~= child_ids_spec(col_name@, hs.take(i as int + 1), level + 1));
            }
            i += 1;
        }
        assert(hs.take(n as int) =~= hs);
        let node = CategoricalNode {
            id: node_id.clone(),
            value: hierarchy.col_name.clone(),
            level,
            children: children_ids,
            parent: parent_id,
        };
        insert_node(nodes, node);
        node_id
    }
}


/// Whether some node has id `id`.
pub open spec fn has_id(ns: Seq<NodeModel>, id: Seq<char>) -> bool {
    first_id_from(ns, id, 0) is Some
}

/// What `first_id_from` finds: the first match at or after `a`, or that there is none.
pub proof fn lemma_first_id(ns: Seq<NodeModel>, id: Seq<char>, a: int)
    requires
        0 <= a,
    ensures
        match first_id_from(ns, id, a) {
            Some(j) => a <= j < ns.len() && ns[j].id == id && forall|k: int|
                a <= k < j ==> ns[k].id != id,
            None => forall|k: int| a <= k < ns.len() ==> ns[k].id != id,
        },
    decreases ns.len() - a,
{
    if a < ns.len() && ns[a].id != id {
        lemma_first_id(ns, id, a + 1);
    }
}

/// Two node ids of one column that are equal were made at the same depth.
pub proof fn lemma_node_id_depth(col: Seq<char>, a: int, v: Seq<char>, b: int, w: Seq<char>)
    requires
        a >= 0,
        b >= 0,
        node_id_spec(col, a, v) == node_id_spec(col, b, w),
    ensures
        a == b,
{
    let da = nat_decimal(a as nat);
    let db = nat_decimal(b as nat);
    lemma_nat_decimal(a as nat);
    lemma_nat_decimal(b as nat);
    let s1 = node_id_spec(col, a, v);
    let s2 = node_id_spec(col, b, w);
    let pre = col + seq!['_'];
    let t1 = da + seq!['_'] + v;
    let t2 = db + seq!['_'] + w;
    assert(s1 =~= pre + t1);
    assert(s2 =~= pre + t2);
    assert(t1 =~= s1.skip(pre.len() as int));
    assert(t2 =~= s2.skip(pre.len() as int));
    assert(t1 == t2);
    if da.len() < db.len() {
        assert(t1[da.len() as int] == '_');
        assert(t2[da.len() as int] == db[da.len() as int]);
        assert(is_digit(db[da.len() as int]));
        assert(false);
    }
    if db.len() < da.len() {
        assert(t2[db.len() as int] == '_');
        assert(t1[db.len() as int] == da[db.len() as int]);
        assert(is_digit(da[db.len() as int]));
        assert(false);
    }
    assert(da =~= t1.take(da.len() as int));
    assert(db =~= t2.take(db.len() as int));
    lemma_nat_decimal_injective(a as nat, b as nat);
}

/// No two nodes share an id.
pub open spec fn ids_unique(ns: Seq<NodeModel>) -> bool {
    forall|i: int, j: int|
        0 <= i < ns.len() && 0 <= j < ns.len() && i != j ==> ns[i].id != ns[j].id
}

/// Every node's id is the one made from its column, depth and value.
pub open spec fn ids_formed(ns: Seq<NodeModel>, col: Seq<char>) -> bool {
    forall|i: int|
        0 <= i < ns.len() ==> ns[i].level >= 0 && #[trigger] ns[i].id == node_id_spec(
            col,
            ns[i].level,
            ns[i].value,
        )
}

/// Every parent reference is an id made one level up.
pub open spec fn parents_formed(ns: Seq<NodeModel>, col: Seq<char>) -> bool {
    forall|i: int|
        0 <= i < ns.len() && (#[trigger] ns[i].parent) is Some ==> ns[i].level >= 1 && exists|v: Seq<char>|
            ns[i].parent->0 == #[trigger] node_id_spec(col, ns[i].level - 1, v)
}

/// Every parent reference names a stored node, or one still being built.
pub open spec fn parents_known(ns: Seq<NodeModel>, pending: Set<Seq<char>>) -> bool {
    forall|i: int|
        0 <= i < ns.len() && (#[trigger] ns[i].parent) is Some ==> has_id(ns, ns[i].parent->0)
            || pending.contains(ns[i].parent->0)
}

/// What holds of the node list at every step of building a taxonomy.
pub open spec fn build_inv(ns: Seq<NodeModel>, col: Seq<char>, pending: Set<Seq<char>>) -> bool {
    &&& ids_unique(ns)
    &&& ids_formed(ns, col)
    &&& parents_formed(ns, col)
    &&& parents_known(ns, pending)
}

/// Storing a node keeps every id that was there, and adds the node's own.
pub proof fn lemma_insert_ids(ns: Seq<NodeModel>, n: NodeModel)
    ensures
        forall|x: Seq<char>| has_id(ns, x) ==> has_id(insert_node_spec(ns, n), x),
        has_id(insert_node_spec(ns, n), n.id),
{
    let r = insert_node_spec(ns, n);
    lemma_first_id(ns, n.id, 0);
    assert forall|x: Seq<char>| has_id(ns, x) implies has_id(r, x) by {
        lemma_first_id(ns, x, 0);
        lemma_first_id(r, x, 0);
        let k = first_id_from(ns, x, 0)->0;
        match first_id_from(ns, n.id, 0) {
            Some(j) => {
                if k == j {
                    assert(r[j].id == x);
                } else {
                    assert(r[k].id == x);
                }
            },
            None => {
                assert(r[k].id == x);
            },
        }
    }
    lemma_first_id(r, n.id, 0);
    match first_id_from(ns, n.id, 0) {
        Some(j) => {
            assert(r[j].id == n.id);
        },
        None => {
            assert(r[ns.len() as int].id == n.id);
        },
    }
}

/// Storing a well-formed node keeps the building invariant.
pub proof fn lemma_insert_inv(ns: Seq<NodeModel>, col: Seq<char>, pending: Set<Seq<char>>, n: NodeModel)
    requires
        build_inv(ns, col, pending),
        n.level >= 0,
        n.id == node_id_spec(col, n.level, n.value),
        n.parent is Some ==> n.level >= 1 && (exists|v: Seq<char>|
            n.parent->0 == #[trigger] node_id_spec(col, n.level - 1, v)) && (has_id(ns, n.parent->0)
            || pending.contains(n.parent->0)),
    ensures
        build_inv(insert_node_spec(ns, n), col, pending),
{
    let r = insert_node_spec(ns, n);
    lemma_insert_ids(ns, n);
    lemma_first_id(ns, n.id, 0);
    assert(ids_unique(r)) by {
        match first_id_from(ns, n.id, 0) {
            Some(j) => {
                assert forall|a: int, b: int|
                    0 <= a < r.len() && 0 <= b < r.len() && a != b implies r[a].id != r[b].id by {
                    if a == j {
                        assert(ns[j].id == n.id);
                    } else if b == j {
                        assert(ns[j].id == n.id);
                    }
                }
            },
            None => {},
        }
    }
    assert(ids_formed(r, col));
    assert(parents_formed(r, col)) by {
        assert forall|i: int| 0 <= i < r.len() && (#[trigger] r[i].parent) is Some implies r[i].level
            >= 1 && exists|v: Seq<char>| r[i].parent->0 == #[trigger] node_id_spec(col, r[i].level - 1, v) by {
            if r[i] == n {
            } else {
                assert(r[i] == ns[i]);
            }
        }
    }
    assert(parents_known(r, pending)) by {
        assert forall|i: int| 0 <= i < r.len() && (#[trigger] r[i].parent) is Some implies has_id(
            r,
            r[i].parent->0,
        ) || pending.contains(r[i].parent->0) by {
            if r[i] == n {
            } else {
                assert(r[i] == ns[i]);
            }
        }
    }
}

/// Building a subtree keeps the building invariant, keeps every stored id and
/// stores the subtree's own node.
pub proof fn lemma_build_tree_inv(
    ns: Seq<NodeModel>,
    col: Seq<char>,
    h: CategoricalHierarchy,
    parent: Option<Seq<char>>,
    depth: int,
    pending: Set<Seq<char>>,
)
    requires
        build_inv(ns, col, pending),
        depth >= 0,
        parent is Some ==> depth >= 1 && pending.contains(parent->0) && exists|v: Seq<char>|
            parent->0 == #[trigger] node_id_spec(col, depth - 1, v),
    ensures
        build_inv(build_tree_spec(ns, col, h, parent, depth), col, pending),
        forall|x: Seq<char>| has_id(ns, x) ==> has_id(build_tree_spec(ns, col, h, parent, depth), x),
        has_id(build_tree_spec(ns, col, h, parent, depth), node_id_spec(col, depth, h.col_name@)),
    decreases h, 0nat,
{
    let id = node_id_spec(col, depth, h.col_name@);
    let pend2 = pending.insert(id);
    assert(build_inv(ns, col, pend2));
    assert(id == node_id_spec(col, (depth + 1) - 1, h.col_name@));
    lemma_build_forest_inv(ns, col, h.children@, 0, id, depth + 1, pend2);
    let mid = build_forest_spec(ns, col, h.children@, 0, id, depth + 1);
    let n = NodeModel {
        id,
        value: h.col_name@,
        level: depth,
        children: child_ids_spec(col, h.children@, depth + 1),
        parent,
    };
    lemma_insert_inv(mid, col, pend2, n);
    lemma_insert_ids(mid, n);
    let r = insert_node_spec(mid, n);
    assert(parents_known(r, pending)) by {
        assert forall|i: int| 0 <= i < r.len() && (#[trigger] r[i].parent) is Some implies has_id(
            r,
            r[i].parent->0,
        ) || pending.contains(r[i].parent->0) by {
            if r[i].parent->0 == id {
            }
        }
    }
}

/// Building the subtrees `hs[i..]` under the node `parent` keeps the building
/// invariant and every stored id.
pub proof fn lemma_build_forest_inv(
    ns: Seq<NodeModel>,
    col: Seq<char>,
    hs: Seq<CategoricalHierarchy>,
    i: int,
    parent: Seq<char>,
    depth: int,
    pending: Set<Seq<char>>,
)
    requires
        build_inv(ns, col, pending),
        depth >= 1,
        pending.contains(parent),
        exists|v: Seq<char>| parent == #[trigger] node_id_spec(col, depth - 1, v),
    ensures
        build_inv(build_forest_spec(ns, col, hs, i, parent, depth), col, pending),
        forall|x: Seq<char>| has_id(ns, x) ==> has_id(build_forest_spec(ns, col, hs, i, parent, depth), x),
    decreases hs, hs.len() - i,
{
    if 0 <= i < hs.len() {
        lemma_build_tree_inv(ns, col, hs[i], Some(parent), depth, pending);
        let mid = build_tree_spec(ns, col, hs[i], Some(parent), depth);
        lemma_build_forest_inv(mid, col, hs, i + 1, parent, depth, pending);
    }
}

/// Every level turned into its distance from the top level `m`.
pub open spec fn invert_levels(ns: Seq<NodeModel>, m: int) -> Seq<NodeModel> {
    ns.map_values(|n: NodeModel| NodeModel { level: m - n.level, ..n })
}

/// A taxonomy's nodes are well formed: ids are unique, levels fit a `usize`,
/// and every parent reference names a stored node of a higher level.
pub open spec fn nodes_wf(ns: Seq<NodeModel>) -> bool {
    &&& ids_unique(ns)
    &&& forall|i: int| 0 <= i < ns.len() ==> 0 <= #[trigger] ns[i].level <= usize::MAX
    &&& forall|i: int|
        0 <= i < ns.len() && (#[trigger] ns[i].parent) is Some ==> match first_id_from(
            ns,
            ns[i].parent->0,
            0,
        ) {
            Some(j) => ns[j].level > ns[i].level,
            None => false,
        }
}

/// Finished building, with the levels counted down from the top, gives well-formed nodes.
pub proof fn lemma_wf_from_build(ns: Seq<NodeModel>, col: Seq<char>, m: int)
    requires
        build_inv(ns, col, Set::empty()),
        forall|i: int| 0 <= i < ns.len() ==> #[trigger] ns[i].level <= m,
        m <= usize::MAX,
    ensures
        nodes_wf(invert_levels(ns, m)),
{
    let r = invert_levels(ns, m);
    assert forall|i: int| 0 <= i < ns.len() implies #[trigger] r[i].id == ns[i].id && r[i].level == m
        - ns[i].level && r[i].parent == ns[i].parent by {}
    assert forall|x: Seq<char>, a: int| 0 <= a implies first_id_from(r, x, a) == first_id_from(ns, x, a) by {
        lemma_first_id(r, x, a);
        lemma_first_id(ns, x, a);
        match first_id_from(r, x, a) {
            Some(j) => {
                match first_id_from(ns, x, a) {
                    Some(k) => {
                        if j < k {
                            assert(ns[j].id == r[j].id);
                        } else if k < j {
                            assert(r[k].id == ns[k].id);
                        }
                    },
                    None => {
                        assert(ns[j].id == r[j].id);
                    },
                }
            },
            None => {
                match first_id_from(ns, x, a) {
                    Some(k) => {
                        assert(r[k].id == ns[k].id);
                    },
                    None => {},
                }
            },
        }
    }
    assert forall|i: int|
        0 <= i < r.len() && (#[trigger] r[i].parent) is Some implies match first_id_from(
            r,
            r[i].parent->0,
            0,
        ) {
            Some(j) => r[j].level > r[i].level,
            None => false,
        } by {
        let p = ns[i].parent->0;
        assert(ns[i].parent is Some);
        assert(has_id(ns, p));
        lemma_first_id(ns, p, 0);
        let j = first_id_from(ns, p, 0)->0;
        assert(ns[j].id == node_id_spec(col, ns[j].level, ns[j].value));
        let v = choose|v: Seq<char>| p == #[trigger] node_id_spec(col, ns[i].level - 1, v);
        lemma_node_id_depth(col, ns[j].level, ns[j].value, ns[i].level - 1, v);
        assert(first_id_from(r, p, 0) == first_id_from(ns, p, 0));
    }
}


/// The greatest level among `ns[..i]` (0 when there is none).
pub open spec fn max_level_upto(ns: Seq<NodeModel>, i: int) -> int
    decreases i,
{
    if i <= 0 {
        0
    } else {
        let a = max_level_upto(ns, i - 1);
        let b = ns[i - 1].level;
        if a >= b {
            a
        } else {
            b
        }
    }
}

pub proof fn lemma_max_level_upto(ns: Seq<NodeModel>, i: int)
    requires
        0 <= i <= ns.len(),
    ensures
        forall|j: int| 0 <= j < i ==> #[trigger] ns[j].level <= max_level_upto(ns, i),
    decreases i,
{
    if i > 0 {
        lemma_max_level_upto(ns, i - 1);
    }
}

/// The greatest level among `ns[..i]` is some node's level, when there is a
/// node and no level is negative.
pub proof fn lemma_max_level_reached(ns: Seq<NodeModel>, i: int)
    requires
        1 <= i <= ns.len(),
        forall|t: int| 0 <= t < ns.len() ==> #[trigger] ns[t].level >= 0,
    ensures
        exists|j: int| 0 <= j < i && #[trigger] ns[j].level == max_level_upto(ns, i),
    decreases i,
{
    if i == 1 {
        assert(ns[0].level >= 0);
        assert(ns[0].level == max_level_upto(ns, 1));
    } else {
        lemma_max_level_reached(ns, i - 1);
        if ns[i - 1].level >= max_level_upto(ns, i - 1) {
            assert(ns[i - 1].level == max_level_upto(ns, i));
        } else {
            let j = choose|j: int| 0 <= j < i - 1 && #[trigger] ns[j].level == max_level_upto(ns, i - 1);
            assert(ns[j].level == max_level_upto(ns, i));
        }
    }
}

/// The levels of a categorical taxonomy: every parent is exactly one level
/// above its child, the root has the greatest level, and the lowest level is 0.
pub proof fn lemma_taxonomy_levels(col: Seq<char>, h: CategoricalHierarchy)
    ensures
        ({
            let ns = taxonomy_nodes_spec(col, h);
            &&& ns.len() >= 1
            &&& forall|i: int|
                0 <= i < ns.len() && (#[trigger] ns[i].parent) is Some ==> (first_id_from(ns, ns[i].parent->0, 0) matches Some(
                    j,
                ) && ns[j].level == ns[i].level + 1)
            &&& first_id_from(ns, node_id_spec(col, 0, h.col_name@), 0) matches Some(r) && forall|i: int|
                0 <= i < ns.len() ==> #[trigger] ns[i].level <= ns[r].level
            &&& exists|i: int| 0 <= i < ns.len() && #[trigger] ns[i].level == 0
        }),
{
    let built = build_tree_spec(Seq::empty(), col, h, None, 0);
    lemma_build_tree_inv(Seq::empty(), col, h, None, 0, Set::empty());
    let m = max_level_upto(built, built.len() as int);
    lemma_max_level_upto(built, built.len() as int);
    let ns = taxonomy_nodes_spec(col, h);
    assert(ns == invert_levels(built, m));
    assert forall|i: int| 0 <= i < built.len() implies #[trigger] ns[i].id == built[i].id && ns[i].level == m
        - built[i].level && ns[i].parent == built[i].parent by {
        assert(ns[i] == NodeModel { level: m - built[i].level, ..built[i] });
    }
    assert forall|x: Seq<char>| #[trigger] first_id_from(ns, x, 0) == first_id_from(built, x, 0) by {
        lemma_first_ids_same(ns, built, x, 0);
    }
    let rid = node_id_spec(col, 0, h.col_name@);
    assert(has_id(built, rid));
    lemma_first_id(built, rid, 0);
    let r = first_id_from(built, rid, 0)->0;
    assert(built[r].id == node_id_spec(col, built[r].level, built[r].value));
    lemma_node_id_depth(col, built[r].level, built[r].value, 0, h.col_name@);
    assert(ns.len() >= 1);
    assert forall|i: int| 0 <= i < ns.len() implies #[trigger] ns[i].level <= ns[r].level by {
        assert(built[i].level >= 0);
    }
    assert forall|i: int| 0 <= i < ns.len() && (#[trigger] ns[i].parent) is Some implies (first_id_from(
        ns,
        ns[i].parent->0,
        0,
    ) matches Some(j) && ns[j].level == ns[i].level + 1) by {
        let p = built[i].parent->0;
        assert(built[i].parent is Some);
        assert(has_id(built, p));
        lemma_first_id(built, p, 0);
        let j = first_id_from(built, p, 0)->0;
        assert(built[j].id == node_id_spec(col, built[j].level, built[j].value));
        let v = choose|v: Seq<char>| p == #[trigger] node_id_spec(col, built[i].level - 1, v);
        lemma_node_id_depth(col, built[j].level, built[j].value, built[i].level - 1, v);
        assert(first_id_from(ns, p, 0) == first_id_from(built, p, 0));
    }
    assert forall|t: int| 0 <= t < built.len() implies #[trigger] built[t].level >= 0 by {}
    lemma_max_level_reached(built, built.len() as int);
    let j = choose|j: int| 0 <= j < built.len() && #[trigger] built[j].level == m;
    assert(ns[j] == NodeModel { level: m - built[j].level, ..built[j] });
    assert(ns[j].level == 0);
}

/// Two node lists with the same ids, position by position, find ids at the same places.
pub proof fn lemma_first_ids_same(a: Seq<NodeModel>, b: Seq<NodeModel>, x: Seq<char>, i: int)
    requires
        a.len() == b.len(),
        forall|t: int| 0 <= t < a.len() ==> #[trigger] a[t].id == b[t].id,
        0 <= i,
    ensures
        first_id_from(a, x, i) == first_id_from(b, x, i),
    decreases a.len() - i,
{
    if i < a.len() {
        assert(a[i].id == b[i].id);
        lemma_first_ids_same(a, b, x, i + 1);
    }
}

/// Every node of `ns` is at depth `d` or deeper, and every node below depth
/// zero has a parent.
pub open spec fn levels_from(ns: Seq<NodeModel>, d: int) -> bool {
    forall|i: int| 0 <= i < ns.len() ==> (#[trigger] ns[i]).level >= d && (ns[i].level >= 1 ==> ns[i].parent is Some)
}

/// Building a subtree at depth `depth` or deeper, under a parent unless at
/// depth zero, keeps every node at depth `d` or deeper with a parent below depth zero.
pub proof fn lemma_build_tree_levels(
    ns: Seq<NodeModel>,
    col: Seq<char>,
    h: CategoricalHierarchy,
    parent: Option<Seq<char>>,
    depth: int,
    d: int,
)
    requires
        levels_from(ns, d),
        0 <= d <= depth,
        depth >= 1 ==> parent is Some,
    ensures
        levels_from(build_tree_spec(ns, col, h, parent, depth), d),
    decreases h, 0nat,
{
    let id = node_id_spec(col, depth, h.col_name@);
    lemma_build_forest_levels(ns, col, h.children@, 0, id, depth + 1, d);
    let mid = build_forest_spec(ns, col, h.children@, 0, id, depth + 1);
    let n = NodeModel {
        id,
        value: h.col_name@,
        level: depth,
        children: child_ids_spec(col, h.children@, depth + 1),
        parent,
    };
    let r = insert_node_spec(mid, n);
    lemma_first_id(mid, id, 0);
    assert forall|i: int| 0 <= i < r.len() implies (#[trigger] r[i]).level >= d && (r[i].level >= 1 ==> r[i].parent is Some) by {
        match first_id_from(mid, id, 0) {
            Some(j) => {
                if i != j {
                    assert(r[i] == mid[i]);
                }
            },
            None => {
                if i < mid.len() {
                    assert(r[i] == mid[i]);
                }
            },
        }
    }
}

/// Building the subtrees `hs[i..]` below depth zero keeps every node at depth
/// `d` or deeper with a parent below depth zero.
pub proof fn lemma_build_forest_levels(
    ns: Seq<NodeModel>,
    col: Seq<char>,
    hs: Seq<CategoricalHierarchy>,
    i: int,
    parent: Seq<char>,
    depth: int,
    d: int,
)
    requires
        levels_from(ns, d),
        0 <= d <= depth,
        depth >= 1,
    ensures
        levels_from(build_forest_spec(ns, col, hs, i, parent, depth), d),
    decreases hs, hs.len() - i,
{
    if 0 <= i < hs.len() {
        lemma_build_tree_levels(ns, col, hs[i], Some(parent), depth, d);
        let mid = build_tree_spec(ns, col, hs[i], Some(parent), depth);
        lemma_build_forest_levels(mid, col, hs, i + 1, parent, depth, d);
    }
}

/// A categorical taxonomy has one root: every node but the last one built has
/// a parent, and the last one, whose id is that of the top label at depth
/// zero, has none.
pub proof fn lemma_taxonomy_single_root(col: Seq<char>, h: CategoricalHierarchy)
    ensures
        ({
            let ns = taxonomy_nodes_spec(col, h);
            &&& ns.len() >= 1
            &&& ns[ns.len() - 1].parent is None
            &&& ns[ns.len() - 1].id == node_id_spec(col, 0, h.col_name@)
            &&& forall|i: int| 0 <= i < ns.len() - 1 ==> (#[trigger] ns[i].parent) is Some
        }),
{
    let rid = node_id_spec(col, 0, h.col_name@);
    let empty = Seq::<NodeModel>::empty();
    assert(levels_from(empty, 1));
    lemma_build_forest_levels(empty, col, h.children@, 0, rid, 1, 1);
    let mid = build_forest_spec(empty, col, h.children@, 0, rid, 1);
    assert(build_inv(empty, col, Set::empty().insert(rid)));
    assert(rid == node_id_spec(col, 1 - 1, h.col_name@));
    lemma_build_forest_inv(empty, col, h.children@, 0, rid, 1, Set::empty().insert(rid));
    lemma_first_id(mid, rid, 0);
    if first_id_from(mid, rid, 0) is Some {
        let j = first_id_from(mid, rid, 0)->0;
        assert(mid[j].id == node_id_spec(col, mid[j].level, mid[j].value));
        assert(mid[j].level >= 1);
        lemma_node_id_depth(col, mid[j].level, mid[j].value, 0, h.col_name@);
    }
    let root = NodeModel {
        id: rid,
        value: h.col_name@,
        level: 0,
        children: child_ids_spec(col, h.children@, 1),
        parent: None,
    };
    let built = build_tree_spec(empty, col, h, None, 0);
    assert(built == mid.push(root));
    let m = max_level_upto(built, built.len() as int);
    let ns = taxonomy_nodes_spec(col, h);
    assert(ns == invert_levels(built, m));
    assert forall|i: int| 0 <= i < built.len() implies #[trigger] ns[i].parent == built[i].parent && ns[i].id == built[i].id by {
        assert(ns[i] == NodeModel { level: m - built[i].level, ..built[i] });
    }
    assert forall|i: int| 0 <= i < ns.len() - 1 implies (#[trigger] ns[i].parent) is Some by {
        assert(built[i] == mid[i]);
        assert(mid[i].level >= 1);
        assert(ns[i].parent == built[i].parent);
    }
    assert(ns[ns.len() - 1].parent == built[built.len() - 1].parent);
}

/// The ids of the nodes of `h` at depth `depth`, in the order they are built:
/// the subtrees' first, then the node's own.
pub open spec fn tree_ids(col: Seq<char>, h: CategoricalHierarchy, depth: int) -> Seq<Seq<char>>
    decreases h, 0nat,
{
    forest_ids(col, h.children@, 0, depth + 1).push(node_id_spec(col, depth, h.col_name@))
}

/// The ids of the nodes of the hierarchies `hs[i..]` at depth `depth`, in the order they are built.
pub open spec fn forest_ids(col: Seq<char>, hs: Seq<CategoricalHierarchy>, i: int, depth: int) -> Seq<Seq<char>>
    decreases hs, hs.len() - i,
{
    if 0 <= i < hs.len() {
        tree_ids(col, hs[i], depth) + forest_ids(col, hs, i + 1, depth)
    } else {
        Seq::empty()
    }
}

/// The labels of the nodes of `h`, in the order they are built: the subtrees' first, then its own.
pub open spec fn tree_labels(h: CategoricalHierarchy) -> Seq<Seq<char>>
    decreases h, 0nat,
{
    forest_labels(h.children@, 0).push(h.col_name@)
}

/// The labels of the nodes of the hierarchies `hs[i..]`, in the order they are built.
pub open spec fn forest_labels(hs: Seq<CategoricalHierarchy>, i: int) -> Seq<Seq<char>>
    decreases hs, hs.len() - i,
{
    if 0 <= i < hs.len() {
        tree_labels(hs[i]) + forest_labels(hs, i + 1)
    } else {
        Seq::empty()
    }
}

/// The values of the nodes, in order.
pub open spec fn node_values(ns: Seq<NodeModel>) -> Seq<Seq<char>> {
    ns.map_values(|n: NodeModel| n.value)
}

/// The ids of the nodes, in order.
pub open spec fn node_ids(ns: Seq<NodeModel>) -> Seq<Seq<char>> {
    ns.map_values(|n: NodeModel| n.id)
}

/// No id occurs twice.
pub open spec fn no_dup(s: Seq<Seq<char>>) -> bool {
    forall|a: int, b: int| 0 <= a < s.len() && 0 <= b < s.len() && a != b ==> s[a] != s[b]
}

/// Child `c` of node `p` of `r` is a node of `r` from position `f` on whose parent is node `p`.
pub open spec fn child_linked(r: Seq<NodeModel>, f: int, p: int, c: int) -> bool {
    exists|q: int| f <= q < r.len() && r[q].id == r[p].children[c] && r[q].parent == Some(r[p].id)
}

/// Every child of every node of `r` from position `f` on is such a node.
pub open spec fn children_linked(r: Seq<NodeModel>, f: int) -> bool {
    forall|p: int, c: int| f <= p < r.len() && 0 <= c < r[p].children.len() ==> #[trigger] child_linked(r, f, p, c)
}

/// Some node of `r` from position `f` on has id `id` and parent `parent`.
pub open spec fn placed(r: Seq<NodeModel>, f: int, id: Seq<char>, parent: Seq<char>) -> bool {
    exists|q: int| f <= q < r.len() && r[q].id == id && r[q].parent == Some(parent)
}

/// A prefix of a list without repeated ids has none.
pub proof fn lemma_no_dup_prefix(a: Seq<Seq<char>>, b: Seq<Seq<char>>)
    requires
        no_dup(a + b),
    ensures
        no_dup(a),
{
    assert forall|x: int, y: int| 0 <= x < a.len() && 0 <= y < a.len() && x != y implies a[x] != a[y] by {
        assert((a + b)[x] == a[x] && (a + b)[y] == a[y]);
    }
}

/// With no repeated id, building a subtree appends its nodes, with the ids of
/// `tree_ids` in that order, the subtree's own node last, and links every
/// child of the new nodes to a new node whose parent it is.
pub proof fn lemma_build_tree_links(
    ns: Seq<NodeModel>,
    col: Seq<char>,
    h: CategoricalHierarchy,
    parent: Option<Seq<char>>,
    depth: int,
)
    requires
        no_dup(node_ids(ns) + tree_ids(col, h, depth)),
    ensures
        ({
            let r = build_tree_spec(ns, col, h, parent, depth);
            &&& r.len() == ns.len() + tree_ids(col, h, depth).len()
            &&& forall|t: int| 0 <= t < ns.len() ==> #[trigger] r[t] == ns[t]
            &&& node_ids(r) == node_ids(ns) + tree_ids(col, h, depth)
            &&& node_values(r) == node_values(ns) + tree_labels(h)
            &&& r[r.len() - 1].id == node_id_spec(col, depth, h.col_name@)
            &&& r[r.len() - 1].parent == parent
            &&& children_linked(r, ns.len() as int)
        }),
    decreases h, 0nat,
{
    let id = node_id_spec(col, depth, h.col_name@);
    let hs = h.children@;
    let fi = forest_ids(col, hs, 0, depth + 1);
    assert(tree_ids(col, h, depth) == fi.push(id));
    assert(node_ids(ns) + fi.push(id) =~= (node_ids(ns) + fi) + seq![id]);
    lemma_no_dup_prefix(node_ids(ns) + fi, seq![id]);
    lemma_build_forest_links(ns, col, hs, 0, id, depth + 1);
    let mid = build_forest_spec(ns, col, hs, 0, id, depth + 1);
    let n = NodeModel {
        id,
        value: h.col_name@,
        level: depth,
        children: child_ids_spec(col, hs, depth + 1),
        parent,
    };
    lemma_first_id(mid, id, 0);
    if first_id_from(mid, id, 0) is Some {
        let j = first_id_from(mid, id, 0)->0;
        assert(node_ids(mid)[j] == mid[j].id);
        assert((node_ids(ns) + fi.push(id))[j] == (node_ids(ns) + fi.push(id))[mid.len() as int]);
    }
    let r = build_tree_spec(ns, col, h, parent, depth);
    assert(r == mid.push(n));
    assert(node_ids(r) =~= node_ids(mid).push(id));
    assert(node_ids(r) =~= node_ids(ns) + tree_ids(col, h, depth));
    assert(node_values(r) =~= node_values(mid).push(h.col_name@));
    assert(tree_labels(h) == forest_labels(hs, 0).push(h.col_name@));
    assert(node_values(r) =~= node_values(ns) + tree_labels(h));
    assert forall|t: int| 0 <= t < ns.len() implies #[trigger] r[t] == ns[t] by {
        assert(r[t] == mid[t]);
    }
    assert forall|p: int, c: int| ns.len() <= p < r.len() && 0 <= c < r[p].children.len() implies #[trigger] child_linked(
        r,
        ns.len() as int,
        p,
        c,
    ) by {
        if p < mid.len() {
            assert(r[p] == mid[p]);
            assert(child_linked(mid, ns.len() as int, p, c));
            let q = choose|q: int|
                ns.len() <= q < mid.len() && mid[q].id == mid[p].children[c] && mid[q].parent == Some(mid[p].id);
            assert(r[q] == mid[q]);
        } else {
            assert(r[p] == n);
            assert(n.children[c] == node_id_spec(col, depth + 1, hs[c].col_name@));
            assert(placed(mid, ns.len() as int, node_id_spec(col, depth + 1, hs[c].col_name@), id));
            let q = choose|q: int|
                ns.len() <= q < mid.len() && mid[q].id == node_id_spec(col, depth + 1, hs[c].col_name@) && mid[q].parent
                    == Some(id);
            assert(r[q] == mid[q]);
        }
    }
}

/// With no repeated id, building the subtrees `hs[i..]` appends their nodes,
/// with the ids of `forest_ids` in that order; the top node of each subtree
/// has `parent` for its parent, and every child of the new nodes is linked.
pub proof fn lemma_build_forest_links(
    ns: Seq<NodeModel>,
    col: Seq<char>,
    hs: Seq<CategoricalHierarchy>,
    i: int,
    parent: Seq<char>,
    depth: int,
)
    requires
        0 <= i,
        no_dup(node_ids(ns) + forest_ids(col, hs, i, depth)),
    ensures
        ({
            let r = build_forest_spec(ns, col, hs, i, parent, depth);
            &&& r.len() == ns.len() + forest_ids(col, hs, i, depth).len()
            &&& forall|t: int| 0 <= t < ns.len() ==> #[trigger] r[t] == ns[t]
            &&& node_ids(r) == node_ids(ns) + forest_ids(col, hs, i, depth)
            &&& node_values(r) == node_values(ns) + forest_labels(hs, i)
            &&& forall|t: int| i <= t < hs.len() ==> #[trigger] placed(
                r,
                ns.len() as int,
                node_id_spec(col, depth, hs[t].col_name@),
                parent,
            )
            &&& children_linked(r, ns.len() as int)
        }),
    decreases hs, hs.len() - i,
{
    let r = build_forest_spec(ns, col, hs, i, parent, depth);
    if 0 <= i < hs.len() {
        let ti = tree_ids(col, hs[i], depth);
        let rest = forest_ids(col, hs, i + 1, depth);
        assert(node_ids(ns) + (ti + rest) =~= (node_ids(ns) + ti) + rest);
        lemma_no_dup_prefix(node_ids(ns) + ti, rest);
        lemma_build_tree_links(ns, col, hs[i], Some(parent), depth);
        let mid = build_tree_spec(ns, col, hs[i], Some(parent), depth);
        assert(node_ids(mid) + rest =~= node_ids(ns) + (ti + rest));
        lemma_build_forest_links(mid, col, hs, i + 1, parent, depth);
        assert(r == build_forest_spec(mid, col, hs, i + 1, parent, depth));
        assert(node_ids(r) =~= node_ids(ns) + forest_ids(col, hs, i, depth));
        assert(forest_labels(hs, i) == tree_labels(hs[i]) + forest_labels(hs, i + 1));
        assert(node_values(r) =~= node_values(ns) + forest_labels(hs, i));
        assert forall|t: int| 0 <= t < ns.len() implies #[trigger] r[t] == ns[t] by {
            assert(r[t] == mid[t]);
        }
        assert forall|t: int| i <= t < hs.len() implies #[trigger] placed(
            r,
            ns.len() as int,
            node_id_spec(col, depth, hs[t].col_name@),
            parent,
        ) by {
            if t == i {
                let q = mid.len() - 1;
                assert(r[q] == mid[q]);
            } else {
                assert(placed(r, mid.len() as int, node_id_spec(col, depth, hs[t].col_name@), parent));
            }
        }
        assert forall|p: int, c: int| ns.len() <= p < r.len() && 0 <= c < r[p].children.len() implies #[trigger] child_linked(
            r,
            ns.len() as int,
            p,
            c,
        ) by {
            if p < mid.len() {
                assert(r[p] == mid[p]);
                assert(child_linked(mid, ns.len() as int, p, c));
                let q = choose|q: int|
                    ns.len() <= q < mid.len() && mid[q].id == mid[p].children[c] && mid[q].parent == Some(mid[p].id);
                assert(r[q] == mid[q]);
            } else {
                assert(child_linked(r, mid.len() as int, p, c));
            }
        }
    } else {
        assert(node_ids(ns) + forest_ids(col, hs, i, depth) =~= node_ids(ns));
        assert(node_values(ns) + forest_labels(hs, i) =~= node_values(ns));
    }
}

/// A categorical taxonomy built from a hierarchy in which no id repeats (no
/// two nodes at one depth carry the same label) has one node per node of the
/// hierarchy, with the ids of `tree_ids` and the labels of `tree_labels`, and
/// each child a node lists is the node with that id, whose parent is the node
/// that lists it.
pub proof fn lemma_taxonomy_links(col: Seq<char>, h: CategoricalHierarchy)
    requires
        no_dup(tree_ids(col, h, 0)),
    ensures
        ({
            let ns = taxonomy_nodes_spec(col, h);
            &&& node_ids(ns) == tree_ids(col, h, 0)
            &&& node_values(ns) == tree_labels(h)
            &&& forall|p: int, c: int|
                0 <= p < ns.len() && 0 <= c < ns[p].children.len() ==> (first_id_from(
                    ns,
                    #[trigger] ns[p].children[c],
                    0,
                ) matches Some(q) && ns[q].parent == Some(ns[p].id))
        }),
{
    let empty = Seq::<NodeModel>::empty();
    assert(node_ids(empty) + tree_ids(col, h, 0) =~= tree_ids(col, h, 0));
    lemma_build_tree_links(empty, col, h, None, 0);
    let built = build_tree_spec(empty, col, h, None, 0);
    let m = max_level_upto(built, built.len() as int);
    let ns = taxonomy_nodes_spec(col, h);
    assert(ns == invert_levels(built, m));
    assert forall|i: int| 0 <= i < built.len() implies #[trigger] ns[i].parent == built[i].parent && ns[i].id == built[i].id
        && ns[i].children == built[i].children by {
        assert(ns[i] == NodeModel { level: m - built[i].level, ..built[i] });
    }
    assert(node_ids(ns) =~= node_ids(built));
    assert forall|i: int| 0 <= i < built.len() implies #[trigger] ns[i].value == built[i].value by {
        assert(ns[i] == NodeModel { level: m - built[i].level, ..built[i] });
    }
    assert(node_values(ns) =~= node_values(built));
    assert(node_values(empty) + tree_labels(h) =~= tree_labels(h));
    assert forall|p: int, c: int| 0 <= p < ns.len() && 0 <= c < ns[p].children.len() implies (first_id_from(
        ns,
        #[trigger] ns[p].children[c],
        0,
    ) matches Some(q) && ns[q].parent == Some(ns[p].id)) by {
        assert(ns[p].children == built[p].children);
        assert(child_linked(built, 0, p, c));
        let q = choose|q: int| 0 <= q < built.len() && built[q].id == built[p].children[c] && built[q].parent == Some(built[p].id);
        let x = ns[p].children[c];
        lemma_first_id(ns, x, 0);
        assert(ns[q].id == x);
        let j = first_id_from(ns, x, 0)->0;
        if j != q {
            assert(node_ids(ns)[j] == ns[j].id);
            assert(node_ids(ns)[q] == ns[q].id);
        }
    }
}

/// The nodes that `create_from_hierarchy` builds for `h` in column `col`.
pub open spec fn taxonomy_nodes_spec(col: Seq<char>, h: CategoricalHierarchy) -> Seq<NodeModel> {
    let built = build_tree_spec(Seq::empty(), col, h, None, 0);
    invert_levels(built, max_level_upto(built, built.len() as int))
}

impl CategoricalTaxonomy {
    /// The taxonomy's nodes are well formed (see `nodes_wf`).
    pub open spec fn wf(&self) -> bool {
        nodes_wf(nodes_view(self.nodes@))
    }

    /// Builds the taxonomy of column `col_name` from a hierarchy definition.
    /// Each node's id is `{col_name}_{depth}_{label}`, a later node replacing
    /// an earlier one with the same id; levels count down from the top level,
    /// so the root has the greatest level and the deepest leaves level 0.
    pub fn create_from_hierarchy(col_name: &str, hierarchy: &CategoricalHierarchy) -> (r: Result<
        Self,
        TaxonomyError,
    >)
        requires
            hier_depth(*hierarchy) <= usize::MAX,
        ensures
            r matches Ok(t) && {
                &&& nodes_view(t.nodes@) == taxonomy_nodes_spec(col_name@, *hierarchy)
                &&& t.col_name@ == col_name@
                &&& t.root_id@ == node_id_spec(col_name@, 0, hierarchy.col_name@)
                &&& t.wf()
            },
    {
        let mut nodes: Vec<CategoricalNode> = Vec::new();
        assert(nodes_view(nodes@) =~= Seq::<NodeModel>::empty());
        let root_id = Self::build_tree(&mut nodes, col_name, hierarchy, None, 0);
        let ghost built = nodes_view(nodes@);
        proof {
            lemma_build_tree_inv(Seq::empty(), col_name@, *hierarchy, None, 0, Set::empty());
        }
        let n = nodes.len();
        let mut max_level: usize = 0;
        let mut i: usize = 0;
        while i < n
            invariant
                n == nodes@.len(),
                built == nodes_view(nodes@),
                0 <= i <= n,
                max_level == max_level_upto(built, i as int),
            decreases n - i,
        {
            assert(built[i as int].level == nodes[i as int].level);
            if nodes[i].level > max_level {
                max_level = nodes[i].level;
            }
            i += 1;
        }
        proof {
            lemma_max_level_upto(built, n as int);
        }
        let ghost want = invert_levels(built, max_level as int);
        let mut out: Vec<CategoricalNode> = Vec::new();
        let mut i: usize = 0;
        while i < n
            invariant
                n == nodes@.len(),
                built == nodes_view(nodes@),
                want == invert_levels(built, max_level as int),
                forall|j: int| 0 <= j < n ==> #[trigger] built[j].level <= max_level,
                0 <= i <= n,
                nodes_view(out@) == want.take(i as int),
            decreases n - i,
        {
            let node = &nodes[i];
            assert(built[i as int] == node@);
            assert(built[i as int].level <= max_level);
            let copy = CategoricalNode {
                id: node.id.clone(),
                value: node.value.clone(),
                level: max_level - node.level,
                children: clone_strings(&node.children),
                parent: clone_opt_string(&node.parent),
            };
            assert(copy@ == want[i as int]);
            let ghost prev = out@;
            out.push(copy);
            assert(nodes_view(out@) =~= nodes_view(prev).push(copy@));
            assert(nodes_view(out@) =~= want.take(i as int + 1));
            i += 1;
        }
        assert(want.take(n as int) =~= want);
        proof {
            lemma_wf_from_build(built, col_name@, max_level as int);
        }
        Ok(Self { nodes: out, col_name: col_name.to_owned(), root_id })
    }
}


/// Index of the node that `ns[i]`'s parent reference names, if any.
pub open spec fn parent_index(ns: Seq<NodeModel>, i: int) -> Option<int> {
    match ns[i].parent {
        Some(p) => first_id_from(ns, p, 0),
        None => None,
    }
}

/// Indices of `ns[i]` and of all the nodes above it, following parent references.
pub open spec fn ancestors(ns: Seq<NodeModel>, i: int) -> Set<int>
    decreases usize::MAX - ns[i].level,
    when nodes_wf(ns) && 0 <= i < ns.len()
{
    match parent_index(ns, i) {
        Some(j) => {
            proof {
                lemma_first_id(ns, ns[i].parent->0, 0);
            }
            ancestors(ns, j).insert(i)
        },
        None => set![i],
    }
}

/// The ancestors of a node: itself, then nodes of strictly higher level, all
/// of distinct levels.
pub proof fn lemma_ancestors(ns: Seq<NodeModel>, i: int)
    requires
        nodes_wf(ns),
        0 <= i < ns.len(),
    ensures
        ancestors(ns, i).contains(i),
        ancestors(ns, i).finite(),
        forall|a: int| #[trigger]
            ancestors(ns, i).contains(a) ==> 0 <= a < ns.len() && (a == i || ns[a].level > ns[i].level),
        forall|a: int, b: int|
            ancestors(ns, i).contains(a) && ancestors(ns, i).contains(b) && a != b ==> ns[a].level
                != ns[b].level,
        parent_index(ns, i) is None ==> ancestors(ns, i) == set![i],
        parent_index(ns, i) matches Some(j) ==> 0 <= j < ns.len() && ns[j].level > ns[i].level
            && ancestors(ns, i) == ancestors(ns, j).insert(i) && !ancestors(ns, j).contains(i),
    decreases usize::MAX - ns[i].level,
{
    match parent_index(ns, i) {
        Some(j) => {
            lemma_first_id(ns, ns[i].parent->0, 0);
            lemma_ancestors(ns, j);
        },
        None => {},
    }
}

/// The start node for each wanted value: the first node holding it.
pub open spec fn start_of(ns: Seq<NodeModel>, v: Seq<char>) -> int {
    first_value_from(ns, v, 0)->0
}

/// Every wanted value is held by some node.
pub open spec fn starts_exist(ns: Seq<NodeModel>, values: Seq<Seq<char>>) -> bool {
    forall|k: int| 0 <= k < values.len() ==> (#[trigger] first_value_from(ns, values[k], 0)) is Some
}

/// `j` is an ancestor of the start node of every wanted value.
pub open spec fn is_common_ancestor(ns: Seq<NodeModel>, values: Seq<Seq<char>>, j: int) -> bool {
    &&& 0 <= j < ns.len()
    &&& forall|k: int|
        0 <= k < values.len() ==> #[trigger] ancestors(ns, start_of(ns, values[k])).contains(j)
}

/// `j` is a common ancestor of the lowest level.
pub open spec fn is_lowest_common_ancestor(ns: Seq<NodeModel>, values: Seq<Seq<char>>, j: int) -> bool {
    &&& is_common_ancestor(ns, values, j)
    &&& forall|j2: int| #[trigger] is_common_ancestor(ns, values, j2) ==> ns[j].level <= ns[j2].level
}

/// The value of the lowest common ancestor of the nodes holding `values`; none
/// when `values` is empty, when a value is held by no node, or when the nodes
/// have no common ancestor. A value held by several nodes stands for the first.
pub open spec fn lca_spec(ns: Seq<NodeModel>, values: Seq<Seq<char>>) -> Option<Seq<char>> {
    if values.len() == 0 || !starts_exist(ns, values) || !(exists|j: int|
        is_common_ancestor(ns, values, j)) {
        None
    } else {
        Some(ns[choose|j: int| is_lowest_common_ancestor(ns, values, j)].value)
    }
}

/// The views of a list of string slices.
pub open spec fn strs_view(v: Seq<&str>) -> Seq<Seq<char>> {
    v.map_values(|s: &str| s@)
}

pub proof fn lemma_first_value(ns: Seq<NodeModel>, v: Seq<char>, a: int)
    requires
        0 <= a,
    ensures
        match first_value_from(ns, v, a) {
            Some(j) => a <= j < ns.len() && ns[j].value == v,
            None => forall|k: int| a <= k < ns.len() ==> ns[k].value != v,
        },
    decreases ns.len() - a,
{
    if a < ns.len() && ns[a].value != v {
        lemma_first_value(ns, v, a + 1);
    }
}

impl CategoricalTaxonomy {
    /// Index of the first node whose id is `id`.
    pub(crate) fn index_of_id(&self, id: &String) -> (r: Option<usize>)
        ensures
            r matches Some(i) ==> i < self.nodes@.len() && first_id_from(nodes_view(self.nodes@), id@, 0) == Some(
                i as int,
            ),
            match first_id_from(nodes_view(self.nodes@), id@, 0) {
                Some(j) => r == Some(j as usize),
                None => r is None,
            },
    {
        let ghost ns = nodes_view(self.nodes@);
        let n = self.nodes.len();
        let mut i: usize = 0;
        while i < n
            invariant
                n == ns.len(),
                ns == nodes_view(self.nodes@),
                0 <= i <= n,
                first_id_from(ns, id@, 0) == first_id_from(ns, id@, i as int),
            decreases n - i,
        {
            if self.nodes[i].id == *id {
                assert(first_id_from(ns, id@, i as int) == Some(i as int));
                return Some(i);
            }
            i += 1;
        }
        None
    }

    /// Index of the first node whose value is `value`.
    fn index_of_value(&self, value: &str) -> (r: Option<usize>)
        ensures
            r matches Some(i) ==> i < self.nodes@.len(),
            match first_value_from(nodes_view(self.nodes@), value@, 0) {
                Some(j) => r == Some(j as usize),
                None => r is None,
            },
    {
        let ghost ns = nodes_view(self.nodes@);
        let n = self.nodes.len();
        let mut i: usize = 0;
        while i < n
            invariant
                n == ns.len(),
                ns == nodes_view(self.nodes@),
                0 <= i <= n,
                first_value_from(ns, value@, 0) == first_value_from(ns, value@, i as int),
            decreases n - i,
        {
            if str_eq_string(value, &self.nodes[i].value) {
                assert(first_value_from(ns, value@, i as int) == Some(i as int));
                return Some(i);
            }
            i += 1;
        }
        None
    }

    /// Marks, for each node, whether it is `start` or above it.
    fn ancestor_marks(&self, start: usize) -> (marks: Vec<bool>)
        requires
            self.wf(),
            start < self.nodes@.len(),
        ensures
            marks@.len() == self.nodes@.len(),
            forall|j: int|
                0 <= j < marks@.len() ==> #[trigger] marks@[j] == ancestors(
                    nodes_view(self.nodes@),
                    start as int,
                ).contains(j),
    {
        let ghost ns = nodes_view(self.nodes@);
        let n = self.nodes.len();
        let mut marks: Vec<bool> = Vec::new();
        for i in 0..n
            invariant
                marks@.len() == i,
                forall|j: int| 0 <= j < i ==> marks@[j] == false,
        {
            marks.push(false);
        }
        let mut cur: usize = start;
        proof {
            lemma_ancestors(ns, start as int);
        }
        loop
            invariant_except_break
                forall|j: int|
                    0 <= j < n ==> #[trigger] marks@[j] == (ancestors(ns, start as int).contains(j)
                        && !ancestors(ns, cur as int).contains(j)),
            invariant
                n == ns.len(),
                ns == nodes_view(self.nodes@),
                nodes_wf(ns),
                0 <= cur < n,
                marks@.len() == n,
                ancestors(ns, start as int).contains(cur as int),
                forall|a: int| #[trigger]
                    ancestors(ns, cur as int).contains(a) ==> ancestors(ns, start as int).contains(a),
            ensures
                marks@.len() == n,
                forall|j: int|
                    0 <= j < n ==> #[trigger] marks@[j] == ancestors(ns, start as int).contains(j),
            decreases usize::MAX - ns[cur as int].level,
        {
            proof {
                lemma_ancestors(ns, cur as int);
            }
            let ghost before = marks@;
            marks.set(cur, true);
            assert(ns[cur as int] == self.nodes[cur as int]@);
            match &self.nodes[cur].parent {
                None => {
                    assert(parent_index(ns, cur as int) is None);
                    assert forall|j: int| 0 <= j < n implies #[trigger] marks@[j] == ancestors(
                        ns,
                        start as int,
                    ).contains(j) by {
                        if j != cur {
                            assert(marks@[j] == before[j]);
                        }
                    }
                    break;
                },
                Some(p) => {
                    assert(ns[cur as int].parent == Some(p@));
                    let next = self.index_of_id(p);
                    proof {
                        lemma_first_id(ns, p@, 0);
                    }
                    match next {
                        Some(nx) => {
                            assert(parent_index(ns, cur as int) == Some(nx as int));
                            proof {
                                lemma_ancestors(ns, nx as int);
                                assert(ancestors(ns, cur as int) == ancestors(ns, nx as int).insert(cur as int));
                                assert(ancestors(ns, cur as int).contains(nx as int));
                                assert forall|a: int| #[trigger]
                                    ancestors(ns, nx as int).contains(a) implies ancestors(ns, start as int).contains(a) by {
                                    assert(ancestors(ns, cur as int).contains(a));
                                }
                            }
                            assert forall|j: int| 0 <= j < n implies #[trigger] marks@[j] == (
                            ancestors(ns, start as int).contains(j) && !ancestors(
                                ns,
                                nx as int,
                            ).contains(j)) by {
                                if j != cur {
                                    assert(marks@[j] == before[j]);
                                }
                            }
                            cur = nx;
                        },
                        None => {
                            assert(false);
                            break;
                        },
                    }
                },
            }
        }
        marks
    }

    /// The value of the lowest common ancestor of the nodes holding `values`
    /// (a value held by several nodes stands for the first of them); `None`
    /// when `values` is empty or a value is held by no node.
    pub fn find_lca(&self, values: &[&str]) -> (r: Option<String>)
        requires
            self.wf(),
        ensures
            opt_string_view(r) == lca_spec(nodes_view(self.nodes@), strs_view(values@)),
    {
        let ghost ns = nodes_view(self.nodes@);
        let ghost vs = strs_view(values@);
        if values.len() == 0 {
            return None;
        }
        let n = self.nodes.len();
        let mut common: Vec<bool> = Vec::new();
        for i in 0..n
            invariant
                common@.len() == i,
                forall|j: int| 0 <= j < i ==> common@[j] == true,
        {
            common.push(true);
        }
        let m = values.len();
        let mut k: usize = 0;
        while k < m
            invariant
                m == values@.len(),
                m == vs.len(),
                vs == strs_view(values@),
                n == ns.len(),
                ns == nodes_view(self.nodes@),
                nodes_wf(ns),
                0 <= k <= m,
                common@.len() == n,
                forall|k2: int| 0 <= k2 < k ==> (#[trigger] first_value_from(ns, vs[k2], 0)) is Some,
                forall|j: int|
                    0 <= j < n ==> #[trigger] common@[j] == (forall|k2: int|
                        0 <= k2 < k ==> #[trigger] ancestors(ns, start_of(ns, vs[k2])).contains(j)),
            decreases m - k,
        {
            assert(vs[k as int] == values[k as int]@);
            let start = self.index_of_value(values[k]);
            proof {
                lemma_first_value(ns, vs[k as int], 0);
            }
            assert(start matches Some(s0) ==> start_of(ns, vs[k as int]) == s0 && s0 < n);
            match start {
                None => {
                    assert(!starts_exist(ns, vs));
                    return None;
                },
                Some(s) => {
                    let marks = self.ancestor_marks(s);
                    let ghost old_common = common@;
                    let mut j: usize = 0;
                    while j < n
                        invariant
                            n == ns.len(),
                            common@.len() == n,
                            marks@.len() == n,
                            0 <= j <= n,
                            forall|i: int| j <= i < n ==> common@[i] == old_common[i],
                            forall|i: int|
                                0 <= i < j ==> #[trigger] common@[i] == (old_common[i] && marks@[i]),
                        decreases n - j,
                    {
                        let c = common[j] && marks[j];
                        common.set(j, c);
                        j += 1;
                    }
                    assert forall|i: int| 0 <= i < n implies #[trigger] common@[i] == (forall|k2: int|
                        0 <= k2 < k + 1 ==> #[trigger] ancestors(ns, start_of(ns, vs[k2])).contains(
                            i,
                        )) by {
                        assert(start_of(ns, vs[k as int]) == s as int);
                        assert(marks@[i] == ancestors(ns, s as int).contains(i));
                        if common@[i] {
                            assert forall|k2: int| 0 <= k2 < k + 1 implies #[trigger] ancestors(
                                ns,
                                start_of(ns, vs[k2]),
                            ).contains(i) by {
                                if k2 < k {
                                    assert(old_common[i]);
                                }
                            }
                        } else {
                            if !old_common[i] {
                                let k3 = choose|k3: int|
                                    0 <= k3 < k && !#[trigger] ancestors(ns, start_of(ns, vs[k3])).contains(i);
                                assert(0 <= k3 < k + 1);
                            } else {
                                assert(!ancestors(ns, start_of(ns, vs[k as int])).contains(i));
                            }
                        }
                    }
                },
            }
            k += 1;
        }
        assert(starts_exist(ns, vs));
        assert forall|j: int| 0 <= j < n implies #[trigger] common@[j] == is_common_ancestor(ns, vs, j) by {}
        let mut best: Option<usize> = None;
        let mut j: usize = 0;
        while j < n
            invariant
                n == ns.len(),
                ns == nodes_view(self.nodes@),
                common@.len() == n,
                0 <= j <= n,
                forall|i: int| 0 <= i < n ==> #[trigger] common@[i] == is_common_ancestor(ns, vs, i),
                match best {
                    Some(b) => b < j && is_common_ancestor(ns, vs, b as int) && forall|i: int|
                        0 <= i < j && #[trigger] is_common_ancestor(ns, vs, i) ==> ns[b as int].level
                            <= ns[i].level,
                    None => forall|i: int| 0 <= i < j ==> !#[trigger] is_common_ancestor(ns, vs, i),
                },
            decreases n - j,
        {
            if common[j] {
                assert(ns[j as int].level == self.nodes[j as int].level);
                match best {
                    None => {
                        best = Some(j);
                    },
                    Some(b) => {
                        assert(ns[b as int].level == self.nodes[b as int].level);
                        if self.nodes[j].level < self.nodes[b].level {
                            best = Some(j);
                        }
                    },
                }
            }
            j += 1;
        }
        match best {
            None => {
                assert(!(exists|i: int| is_common_ancestor(ns, vs, i)));
                None
            },
            Some(b) => {
                let ghost bb = b as int;
                assert(is_lowest_common_ancestor(ns, vs, bb));
                let ghost c = choose|c: int| is_lowest_common_ancestor(ns, vs, c);
                proof {
                    let s0 = start_of(ns, vs[0]);
                    assert(first_value_from(ns, vs[0], 0) is Some);
                    lemma_first_value(ns, vs[0], 0);
                    lemma_ancestors(ns, s0);
                    assert(ancestors(ns, s0).contains(bb));
                    assert(ancestors(ns, s0).contains(c));
                    assert(ns[bb].level <= ns[c].level);
                    assert(ns[c].level <= ns[bb].level);
                }
                assert(ns[bb] == self.nodes[bb]@);
                Some(self.nodes[b].value.clone())
            },
        }
    }
}


/// `depth` levels of indentation, two spaces each.
pub open spec fn indent(depth: nat) -> Seq<char>
    decreases depth,
{
    if depth == 0 {
        Seq::empty()
    } else {
        indent((depth - 1) as nat) + seq![' ', ' ']
    }
}

/// The line shown for node `n` (with id `id`) at `depth`:
/// `{indent}[Level {level}] {value} (ID: {id})`.
pub open spec fn tree_line(n: NodeModel, id: Seq<char>, depth: nat) -> Seq<char> {
    indent(depth) + seq!['[', 'L', 'e', 'v', 'e', 'l', ' '] + nat_decimal(n.level as nat) + seq![']', ' '] + n.value
        + seq![' ', '(', 'I', 'D', ':', ' '] + id + seq![')']
}

/// The lines of the subtree of node `i` (with id `id`) shown from `depth`,
/// depth first; at most `fuel` levels deep.
pub open spec fn subtree_lines(ns: Seq<NodeModel>, id: Seq<char>, i: int, depth: nat, fuel: nat) -> Seq<Seq<char>>
    decreases fuel, 0nat, 0int,
{
    if fuel == 0 {
        Seq::empty()
    } else {
        seq![tree_line(ns[i], id, depth)] + children_lines(ns, ns[i].children, 0, depth + 1, (fuel - 1) as nat)
    }
}

/// The lines of the subtrees of the children `cs[j..]` shown from `depth`
/// (a child id with no node is skipped).
pub open spec fn children_lines(ns: Seq<NodeModel>, cs: Seq<Seq<char>>, j: int, depth: nat, fuel: nat) -> Seq<Seq<char>>
    decreases fuel, 1nat, cs.len() - j,
{
    if 0 <= j < cs.len() {
        let rest = children_lines(ns, cs, j + 1, depth, fuel);
        match first_id_from(ns, cs[j], 0) {
            Some(c) => subtree_lines(ns, cs[j], c, depth, fuel) + rest,
            None => rest,
        }
    } else {
        Seq::empty()
    }
}

/// The lines of the subtrees of the level-0 nodes among `ns[i..]`, in order.
pub open spec fn level0_lines(ns: Seq<NodeModel>, i: int, fuel: nat) -> Seq<Seq<char>>
    decreases ns.len() - i,
{
    if 0 <= i < ns.len() {
        let rest = level0_lines(ns, i + 1, fuel);
        if ns[i].level == 0 {
            subtree_lines(ns, ns[i].id, i, 0, fuel) + rest
        } else {
            rest
        }
    } else {
        Seq::empty()
    }
}

/// The lines showing a taxonomy: the tree under its root (the first node with
/// the root's id), or, without one, the subtrees of its level-0 nodes; at most
/// as many levels deep as there are nodes.
pub open spec fn taxonomy_lines(ns: Seq<NodeModel>, root_id: Seq<char>) -> Seq<Seq<char>> {
    match first_id_from(ns, root_id, 0) {
        Some(r) => subtree_lines(ns, root_id, r, 0, ns.len()),
        None => level0_lines(ns, 0, ns.len()),
    }
}

/// Builds the line for node `n` (with id `id`) at `depth` (see `tree_line`).
fn make_tree_line(n: &CategoricalNode, id: &String, depth: usize) -> (s: String)
    ensures
        s@ == tree_line(n@, id@, depth as nat),
{
    let mut cs: Vec<char> = Vec::new();
    let mut d: usize = 0;
    while d < depth
        invariant
            d <= depth,
            cs@ == indent(d as nat),
        decreases depth - d,
    {
        cs.push(' ');
        cs.push(' ');
        d += 1;
        assert(cs@ =~= indent(d as nat));
    }
    let ghost start = cs@;
    cs.push('[');
    cs.push('L');
    cs.push('e');
    cs.push('v');
    cs.push('e');
    cs.push('l');
    cs.push(' ');
    push_decimal(&mut cs, n.level as u64);
    cs.push(']');
    cs.push(' ');
    push_str_chars(&mut cs, n.value.as_str());
    cs.push(' ');
    cs.push('(');
    cs.push('I');
    cs.push('D');
    cs.push(':');
    cs.push(' ');
    push_str_chars(&mut cs, id.as_str());
    cs.push(')');
    assert(cs@ =~= tree_line(n@, id@, depth as nat));
    string_from_chars(&cs)
}

impl CategoricalTaxonomy {
    /// Appends the lines of the subtree of node `i` (see `subtree_lines`).
    fn subtree_lines_exec(&self, id: &String, i: usize, depth: usize, fuel: usize, out: &mut Vec<String>)
        requires
            i < self.nodes@.len(),
            depth + fuel <= usize::MAX,
        ensures
            strings_view(final(out)@) == strings_view(old(out)@) + subtree_lines(
                nodes_view(self.nodes@),
                id@,
                i as int,
                depth as nat,
                fuel as nat,
            ),
        decreases fuel, 1nat, 0nat,
    {
        if fuel == 0 {
            assert(strings_view(out@) =~= strings_view(out@) + Seq::<Seq<char>>::empty());
            return;
        }
        let ghost before = strings_view(out@);
        let ghost ns = nodes_view(self.nodes@);
        assert(ns[i as int] == self.nodes@[i as int]@);
        let line = make_tree_line(&self.nodes[i], id, depth);
        out.push(line);
        assert(strings_view(out@) =~= before + seq![tree_line(ns[i as int], id@, depth as nat)]);
        let node = &self.nodes[i];
        let mut j: usize = 0;
        let ghost cs = ns[i as int].children;
        assert(cs == strings_view(node.children@));
        while j < node.children.len()
            invariant
                0 <= j <= node.children@.len(),
                cs == strings_view(node.children@),
                ns == nodes_view(self.nodes@),
                depth + fuel <= usize::MAX,
                fuel >= 1,
                strings_view(out@) + children_lines(ns, cs, j as int, (depth + 1) as nat, (fuel - 1) as nat) == before
                    + subtree_lines(ns, id@, i as int, depth as nat, fuel as nat),
            decreases node.children@.len() - j,
        {
            let cid = &node.children[j];
            assert(cs[j as int] == cid@);
            proof {
                lemma_first_id(ns, cid@, 0);
            }
            match self.index_of_id(cid) {
                Some(c) => {
                    let ghost mid = strings_view(out@);
                    self.subtree_lines_exec(cid, c, depth + 1, fuel - 1, out);
                    assert(strings_view(out@) + children_lines(ns, cs, j + 1, (depth + 1) as nat, (fuel - 1) as nat) =~= mid
                        + children_lines(ns, cs, j as int, (depth + 1) as nat, (fuel - 1) as nat));
                },
                None => {},
            }
            j += 1;
        }
        assert(children_lines(ns, cs, j as int, (depth + 1) as nat, (fuel - 1) as nat) =~= Seq::<Seq<char>>::empty());
        assert(strings_view(out@) =~= strings_view(out@) + Seq::<Seq<char>>::empty());
    }

    /// The lines showing the taxonomy (see `taxonomy_lines`), to be printed one per line.
    pub fn print_categorical_taxanomy_tree(&self) -> (lines: Vec<String>)
        ensures
            strings_view(lines@) == taxonomy_lines(nodes_view(self.nodes@), self.root_id@),
    {
        let ghost ns = nodes_view(self.nodes@);
        let n = self.nodes.len();
        let mut out: Vec<String> = Vec::new();
        assert(strings_view(out@) =~= Seq::<Seq<char>>::empty());
        proof {
            lemma_first_id(ns, self.root_id@, 0);
        }
        match self.index_of_id(&self.root_id) {
            Some(r) => {
                self.subtree_lines_exec(&self.root_id, r, 0, n, &mut out);
                assert(strings_view(out@) =~= Seq::<Seq<char>>::empty() + subtree_lines(ns, self.root_id@, r as int, 0, n as nat));
            },
            None => {
                let mut i: usize = 0;
                while i < n
                    invariant
                        0 <= i <= n,
                        n == self.nodes@.len(),
                        ns == nodes_view(self.nodes@),
                        strings_view(out@) + level0_lines(ns, i as int, n as nat) == level0_lines(ns, 0, n as nat),
                    decreases n - i,
                {
                    assert(ns[i as int] == self.nodes@[i as int]@);
                    if self.nodes[i].level == 0 {
                        let ghost mid = strings_view(out@);
                        self.subtree_lines_exec(&self.nodes[i].id, i, 0, n, &mut out);
                        assert(strings_view(out@) + level0_lines(ns, i + 1, n as nat) =~= mid + level0_lines(
                            ns,
                            i as int,
                            n as nat,
                        ));
                    } else {
                        assert(level0_lines(ns, i as int, n as nat) == level0_lines(ns, i + 1, n as nat));
                    }
                    i += 1;
                }
                assert(level0_lines(ns, n as int, n as nat) =~= Seq::<Seq<char>>::empty());
                assert(strings_view(out@) =~= strings_view(out@) + Seq::<Seq<char>>::empty());
            },
        }
        out
    }
}

} // verus!
