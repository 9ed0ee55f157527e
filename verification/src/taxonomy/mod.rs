//! Generalization hierarchies for quasi-identifier columns.
pub mod categorical;
pub mod numerical;
pub mod taxonomy_defs;

use vstd::prelude::*;

pub use categorical::{CategoricalHierarchy, CategoricalTaxonomy};
pub use numerical::NumericalTaxonomy;

use crate::data::qi::{QIType, QuasiIdentifier, QuasiIdentifiers};
use crate::data::table::{first_column_from, lemma_first_column, ColumnData, Table};
use crate::taxonomy::categorical::{forest_depth, hier_depth, max_level_upto, nodes_view, taxonomy_nodes_spec, NodeModel, node_id_spec};
use crate::taxonomy::numerical::{NumericalNode, num_nodes_view, numerical_nodes_spec, NumNodeModel};

verus! {

/// Why a taxonomy could not be built.
#[derive(Clone, Debug, PartialEq, Eq)]
pub enum TaxonomyError {
    /// The named column is not in the table.
    ColumnNotFound(String),
    /// The named column does not hold integers.
    NotIntegerColumn(String),
    /// No hierarchy definition was given for the named categorical column.
    MissingHierarchy(String),
    /// The named numerical column asks for a leaf bucket size below 1.
    InvalidBucketSize(String),
    /// The hierarchy definition for the named column is nested too deeply.
    HierarchyTooDeep(String),
}


/// The content of a numerical taxonomy.
pub ghost struct NumTaxModel {
    pub nodes: Seq<NumNodeModel>,
    pub min_val: int,
    pub max_val: int,
    pub col_name: Seq<char>,
}

/// The content of a categorical taxonomy.
pub ghost struct CatTaxModel {
    pub nodes: Seq<NodeModel>,
    pub col_name: Seq<char>,
    pub root_id: Seq<char>,
}

impl View for NumericalTaxonomy {
    type V = NumTaxModel;

    open spec fn view(&self) -> NumTaxModel {
        NumTaxModel {
            nodes: num_nodes_view(self.nodes@),
            min_val: self.min_val as int,
            max_val: self.max_val as int,
            col_name: self.col_name@,
        }
    }
}

impl View for CategoricalTaxonomy {
    type V = CatTaxModel;

    open spec fn view(&self) -> CatTaxModel {
        CatTaxModel { nodes: nodes_view(self.nodes@), col_name: self.col_name@, root_id: self.root_id@ }
    }
}

/// A numerical taxonomy stored under a column name.
#[derive(Clone)]
pub struct NumericalEntry {
    pub name: String,
    pub taxonomy: NumericalTaxonomy,
}

/// A categorical taxonomy stored under a column name.
#[derive(Clone, Debug)]
pub struct CategoricalEntry {
    pub name: String,
    pub taxonomy: CategoricalTaxonomy,
}

/// The taxonomies of a dataset's quasi-identifier columns, by column name.
#[derive(Clone)]
pub struct TaxonomyManager {
    pub numerical_taxonomies: Vec<NumericalEntry>,
    pub categorical_taxonomies: Vec<CategoricalEntry>,
}

/// The content of a manager: `(column name, taxonomy)` pairs of each kind.
pub ghost struct ManagerModel {
    pub numerical: Seq<(Seq<char>, NumTaxModel)>,
    pub categorical: Seq<(Seq<char>, CatTaxModel)>,
}

impl View for TaxonomyManager {
    type V = ManagerModel;

    open spec fn view(&self) -> ManagerModel {
        ManagerModel {
            numerical: self.numerical_taxonomies@.map_values(|e: NumericalEntry| (e.name@, e.taxonomy@)),
            categorical: self.categorical_taxonomies@.map_values(
                |e: CategoricalEntry| (e.name@, e.taxonomy@),
            ),
        }
    }
}

/// Index of the first pair at or after `i` named `k`.
pub open spec fn first_named_from<T>(m: Seq<(Seq<char>, T)>, k: Seq<char>, i: int) -> Option<int>
    decreases m.len() - i,
{
    if 0 <= i < m.len() {
        if m[i].0 == k {
            Some(i)
        } else {
            first_named_from(m, k, i + 1)
        }
    } else {
        None
    }
}

pub proof fn lemma_first_named<T>(m: Seq<(Seq<char>, T)>, k: Seq<char>, a: int)
    requires
        0 <= a,
    ensures
        match first_named_from(m, k, a) {
            Some(j) => a <= j < m.len() && m[j].0 == k,
            None => forall|q: int| a <= q < m.len() ==> m[q].0 != k,
        },
    decreases m.len() - a,
{
    if a < m.len() && m[a].0 != k {
        lemma_first_named(m, k, a + 1);
    }
}

/// Stores `v` under `k`, replacing what `k` held.
pub open spec fn insert_named<T>(m: Seq<(Seq<char>, T)>, k: Seq<char>, v: T) -> Seq<(Seq<char>, T)> {
    match first_named_from(m, k, 0) {
        Some(j) => m.update(j, (k, v)),
        None => m.push((k, v)),
    }
}

/// What `k` holds, if anything.
pub open spec fn lookup_named<T>(m: Seq<(Seq<char>, T)>, k: Seq<char>) -> Option<T> {
    match first_named_from(m, k, 0) {
        Some(j) => Some(m[j].1),
        None => None,
    }
}

/// The least non-null value among `v[..i]`, if any.
pub open spec fn min_present(v: Seq<Option<i64>>, i: int) -> Option<int>
    decreases i,
{
    if i <= 0 {
        None
    } else {
        let rest = min_present(v, i - 1);
        match v[i - 1] {
            None => rest,
            Some(x) => match rest {
                None => Some(x as int),
                Some(y) => Some(if (x as int) < y { x as int } else { y }),
            },
        }
    }
}

/// The greatest non-null value among `v[..i]`, if any.
pub open spec fn max_present(v: Seq<Option<i64>>, i: int) -> Option<int>
    decreases i,
{
    if i <= 0 {
        None
    } else {
        let rest = max_present(v, i - 1);
        match v[i - 1] {
            None => rest,
            Some(x) => match rest {
                None => Some(x as int),
                Some(y) => Some(if (x as int) > y { x as int } else { y }),
            },
        }
    }
}

/// Some cell among `v[..i]` holds a value.
pub open spec fn some_present(v: Seq<Option<i64>>, i: int) -> bool {
    exists|j: int| 0 <= j < i && #[trigger] v[j] is Some
}

/// The bounds of the values of a column: among `v[..i]`, the least and the
/// greatest present value are there exactly when some value is present; each
/// is the value of some cell; and every present value lies between them.
pub proof fn lemma_present_bounds(v: Seq<Option<i64>>, i: int)
    requires
        0 <= i <= v.len(),
    ensures
        min_present(v, i) is Some <==> some_present(v, i),
        max_present(v, i) is Some <==> some_present(v, i),
        min_present(v, i) matches Some(lo) ==> exists|j: int| 0 <= j < i && #[trigger] v[j] == Some(lo as i64),
        max_present(v, i) matches Some(hi) ==> exists|j: int| 0 <= j < i && #[trigger] v[j] == Some(hi as i64),
        forall|j: int|
            0 <= j < i && (#[trigger] v[j]) is Some ==> min_present(v, i)->0 <= v[j]->0 as int <= max_present(v, i)->0,
    decreases i,
{
    if i > 0 {
        lemma_present_bounds(v, i - 1);
        if v[i - 1] is Some {
            assert(some_present(v, i));
        } else {
            assert(some_present(v, i) ==> some_present(v, i - 1)) by {
                if some_present(v, i) {
                    let j = choose|j: int| 0 <= j < i && #[trigger] v[j] is Some;
                    assert(j < i - 1);
                }
            }
        }
        if some_present(v, i - 1) {
            let j = choose|j: int| 0 <= j < i - 1 && #[trigger] v[j] is Some;
            assert(some_present(v, i));
        }
        match min_present(v, i) {
            Some(lo) => {
                if v[i - 1] is Some && (min_present(v, i - 1) is None || v[i - 1]->0 as int == lo) {
                    assert(v[i - 1] == Some(lo as i64));
                } else {
                    let j = choose|j: int| 0 <= j < i - 1 && #[trigger] v[j] == Some(lo as i64);
                    assert(v[j] == Some(lo as i64));
                }
            },
            None => {},
        }
        match max_present(v, i) {
            Some(hi) => {
                if v[i - 1] is Some && (max_present(v, i - 1) is None || v[i - 1]->0 as int == hi) {
                    assert(v[i - 1] == Some(hi as i64));
                } else {
                    let j = choose|j: int| 0 <= j < i - 1 && #[trigger] v[j] == Some(hi as i64);
                    assert(v[j] == Some(hi as i64));
                }
            },
            None => {},
        }
    }
}

/// `o`'s value, or 0.
pub open spec fn or_zero(o: Option<int>) -> int {
    match o {
        Some(x) => x,
        None => 0,
    }
}

/// The ways a quasi-identifier's taxonomy can fail to be built.
pub enum BuildFailure {
    ColumnNotFound,
    NotIntegerColumn,
    InvalidBucketSize,
    MissingHierarchy,
    HierarchyTooDeep,
}

/// Why the taxonomy of the quasi-identifier of kind `t` on column `name` cannot
/// be built from `table` and the hierarchy `h`, if it cannot.
pub open spec fn qi_failure(table: Table, name: Seq<char>, t: QIType, h: Option<CategoricalHierarchy>) -> Option<BuildFailure> {
    match t {
        QIType::Numerical { leaf_bucket_size } => match first_column_from(table.columns@, name, 0) {
            None => Some(BuildFailure::ColumnNotFound),
            Some(c) => match table.columns@[c].data {
                ColumnData::Str(_) => Some(BuildFailure::NotIntegerColumn),
                ColumnData::Int(_) => if leaf_bucket_size < 1 {
                    Some(BuildFailure::InvalidBucketSize)
                } else {
                    None
                },
            },
        },
        QIType::Categorical { .. } => match h {
            None => Some(BuildFailure::MissingHierarchy),
            Some(hh) => if hier_depth(hh) > usize::MAX {
                Some(BuildFailure::HierarchyTooDeep)
            } else {
                None
            },
        },
    }
}

/// Whether `e` reports `f` for column `name`.
pub open spec fn reports(e: TaxonomyError, f: BuildFailure, name: Seq<char>) -> bool {
    match (e, f) {
        (TaxonomyError::ColumnNotFound(n), BuildFailure::ColumnNotFound) => n@ == name,
        (TaxonomyError::NotIntegerColumn(n), BuildFailure::NotIntegerColumn) => n@ == name,
        (TaxonomyError::InvalidBucketSize(n), BuildFailure::InvalidBucketSize) => n@ == name,
        (TaxonomyError::MissingHierarchy(n), BuildFailure::MissingHierarchy) => n@ == name,
        (TaxonomyError::HierarchyTooDeep(n), BuildFailure::HierarchyTooDeep) => n@ == name,
        _ => false,
    }
}

/// The integer cells of the first column named `name` (empty if none).
pub open spec fn int_cells(table: Table, name: Seq<char>) -> Seq<Option<i64>> {
    match first_column_from(table.columns@, name, 0) {
        Some(c) => match table.columns@[c].data {
            ColumnData::Int(v) => v@,
            ColumnData::Str(_) => Seq::empty(),
        },
        None => Seq::empty(),
    }
}

/// The hierarchy given for quasi-identifier `i`, none past the end of `hs`.
pub open spec fn hier_at(hs: Seq<Option<CategoricalHierarchy>>, i: int) -> Option<CategoricalHierarchy> {
    if 0 <= i < hs.len() {
        hs[i]
    } else {
        None
    }
}

/// Why the taxonomy of the `i`-th quasi-identifier cannot be built, if it cannot.
pub open spec fn failure_at(
    table: Table,
    qis: Seq<QuasiIdentifier>,
    hs: Seq<Option<CategoricalHierarchy>>,
    i: int,
) -> Option<BuildFailure> {
    qi_failure(table, qis[i].column_name@, qis[i].qi_type, hier_at(hs, i))
}

/// The manager after building the taxonomies of quasi-identifiers `..i`, each
/// stored under its column name (a later one replacing an earlier).
pub open spec fn manager_upto(
    table: Table,
    qis: Seq<crate::data::qi::QuasiIdentifier>,
    hs: Seq<Option<CategoricalHierarchy>>,
    i: int,
) -> ManagerModel
    decreases i,
{
    if i <= 0 {
        ManagerModel { numerical: Seq::empty(), categorical: Seq::empty() }
    } else {
        let m = manager_upto(table, qis, hs, i - 1);
        let name = qis[i - 1].column_name@;
        match qis[i - 1].qi_type {
            QIType::Numerical { leaf_bucket_size } => {
                let cells = int_cells(table, name);
                let lo = or_zero(min_present(cells, cells.len() as int));
                let hi = or_zero(max_present(cells, cells.len() as int));
                ManagerModel {
                    numerical: insert_named(
                        m.numerical,
                        name,
                        NumTaxModel {
                            nodes: numerical_nodes_spec(name, lo, hi, leaf_bucket_size as int, 3),
                            min_val: lo,
                            max_val: hi,
                            col_name: name,
                        },
                    ),
                    ..m
                }
            },
            QIType::Categorical { .. } => {
                let h = hier_at(hs, i - 1)->0;
                ManagerModel {
                    categorical: insert_named(
                        m.categorical,
                        name,
                        CatTaxModel {
                            nodes: taxonomy_nodes_spec(name, h),
                            col_name: name,
                            root_id: node_id_spec(name, 0, h.col_name@),
                        },
                    ),
                    ..m
                }
            },
        }
    }
}


/// Two lists with the same names at the same places, the longer one's
/// extra names not `k`, find `k` at the same place.
pub proof fn lemma_first_named_same<T>(a: Seq<(Seq<char>, T)>, b: Seq<(Seq<char>, T)>, k: Seq<char>, i: int)
    requires
        0 <= i,
        a.len() <= b.len(),
        forall|q: int| 0 <= q < a.len() ==> a[q].0 == b[q].0,
        forall|q: int| a.len() <= q < b.len() ==> b[q].0 != k,
    ensures
        first_named_from(a, k, i) == first_named_from(b, k, i),
    decreases b.len() - i,
{
    if i < b.len() {
        lemma_first_named_same(a, b, k, i + 1);
    }
}

/// What a name holds after storing under a name: the stored value under
/// that name, what it held before under any other.
pub proof fn lemma_lookup_insert<T>(m: Seq<(Seq<char>, T)>, k: Seq<char>, v: T, k2: Seq<char>)
    ensures
        lookup_named(insert_named(m, k, v), k2) == if k2 == k {
            Some(v)
        } else {
            lookup_named(m, k2)
        },
{
    let r = insert_named(m, k, v);
    lemma_first_named(m, k, 0);
    match first_named_from(m, k, 0) {
        Some(j) => {
            assert forall|q: int| 0 <= q < m.len() implies m[q].0 == r[q].0 by {}
            lemma_first_named_same(m, r, k2, 0);
            lemma_first_named(m, k2, 0);
            if k2 != k {
                match first_named_from(m, k2, 0) {
                    Some(c) => {
                        assert(c != j);
                        assert(r[c] == m[c]);
                    },
                    None => {},
                }
            } else {
                lemma_first_named_same(m, r, k, 0);
            }
        },
        None => {
            if k2 != k {
                assert forall|q: int| 0 <= q < m.len() implies m[q].0 == r[q].0 by {}
                lemma_first_named_same(m, r, k2, 0);
                lemma_first_named(m, k2, 0);
                match first_named_from(m, k2, 0) {
                    Some(c) => {
                        assert(r[c] == m[c]);
                    },
                    None => {},
                }
            } else {
                lemma_first_named(r, k, 0);
                assert(r[m.len() as int].0 == k);
                match first_named_from(r, k, 0) {
                    Some(c) => {
                        if c < m.len() {
                            assert(r[c] == m[c]);
                        }
                    },
                    None => {},
                }
            }
        },
    }
}

/// The numerical taxonomy that building the taxonomies of a table stores for
/// a column spans exactly the values of that column: every present value of
/// the column lies between its bounds, and, when the column has a value,
/// each bound is the value of some cell of the column.
pub proof fn lemma_manager_numerical_bounds(
    table: Table,
    qis: Seq<crate::data::qi::QuasiIdentifier>,
    hs: Seq<Option<CategoricalHierarchy>>,
    i: int,
    name: Seq<char>,
)
    requires
        0 <= i <= qis.len(),
    ensures
        lookup_named(manager_upto(table, qis, hs, i).numerical, name) matches Some(t) ==> {
            let cells = int_cells(table, name);
            &&& forall|j: int|
                0 <= j < cells.len() && (#[trigger] cells[j]) is Some ==> t.min_val <= cells[j]->0 <= t.max_val
            &&& some_present(cells, cells.len() as int) ==> exists|j: int|
                0 <= j < cells.len() && #[trigger] cells[j] == Some(t.min_val as i64)
            &&& some_present(cells, cells.len() as int) ==> exists|j: int|
                0 <= j < cells.len() && #[trigger] cells[j] == Some(t.max_val as i64)
        },
    decreases i,
{
    if i > 0 {
        lemma_manager_numerical_bounds(table, qis, hs, i - 1, name);
        let m = manager_upto(table, qis, hs, i - 1);
        let n2 = qis[i - 1].column_name@;
        match qis[i - 1].qi_type {
            QIType::Numerical { leaf_bucket_size } => {
                let cells = int_cells(table, n2);
                let lo = or_zero(min_present(cells, cells.len() as int));
                let hi = or_zero(max_present(cells, cells.len() as int));
                let t = NumTaxModel {
                    nodes: numerical_nodes_spec(n2, lo, hi, leaf_bucket_size as int, 3),
                    min_val: lo,
                    max_val: hi,
                    col_name: n2,
                };
                lemma_lookup_insert(m.numerical, n2, t, name);
                lemma_present_bounds(cells, cells.len() as int);
            },
            QIType::Categorical { .. } => {},
        }
    }
}

/// The greatest level among the numerical nodes `ns[..i]` (0 when none).
pub open spec fn num_max_level_upto(ns: Seq<NumNodeModel>, i: int) -> int
    decreases i,
{
    if i <= 0 {
        0
    } else {
        let a = num_max_level_upto(ns, i - 1);
        let b = ns[i - 1].level;
        if a >= b {
            a
        } else {
            b
        }
    }
}

/// Number of generalization steps of the taxonomy of column `name`: for a
/// numerical one, one less than its greatest level (the root's level is one
/// above its layer); for a categorical one, its greatest level; 0 when the
/// column has no taxonomy. A numerical taxonomy is looked up first.
pub open spec fn qi_height_spec(m: ManagerModel, name: Seq<char>) -> int {
    match lookup_named(m.numerical, name) {
        Some(t) => {
            let top = num_max_level_upto(t.nodes, t.nodes.len() as int);
            if top >= 1 {
                top - 1
            } else {
                0
            }
        },
        None => match lookup_named(m.categorical, name) {
            Some(t) => max_level_upto(t.nodes, t.nodes.len() as int),
            None => 0,
        },
    }
}

/// Depth of a hierarchy, if it fits a `usize`.
pub fn hierarchy_depth(h: &CategoricalHierarchy) -> (r: Option<usize>)
    ensures
        hier_depth(*h) <= usize::MAX ==> r == Some(hier_depth(*h) as usize),
        hier_depth(*h) > usize::MAX ==> r is None,
    decreases h,
{
    let n = h.children.len();
    if n == 0 {
        return Some(0);
    }
    let ghost hs = h.children@;
    let mut acc: usize = 0;
    let mut i: usize = n;
    while i > 0
        invariant
            n == hs.len(),
            hs == h.children@,
            0 <= i <= n,
            forest_depth(hs, i as int) == acc,
        decreases i,
    {
        i -= 1;
        let d = hierarchy_depth(&h.children[i]);
        match d {
            None => {
                assert(forest_depth(hs, i as int) >= hier_depth(hs[i as int]));
                proof {
                    crate::taxonomy::categorical::lemma_forest_depth_ge(hs, 0, i as int);
                }
                return None;
            },
            Some(dv) => {
                if dv > acc {
                    acc = dv;
                }
            },
        }
    }
    if acc == usize::MAX {
        return None;
    }
    Some(acc + 1)
}

/// The least and the greatest non-null value of `v`, 0 for each when there is none.
pub fn int_range(v: &Vec<Option<i64>>) -> (r: (i64, i64))
    ensures
        r.0 == or_zero(min_present(v@, v@.len() as int)),
        r.1 == or_zero(max_present(v@, v@.len() as int)),
        r.0 <= r.1,
        forall|j: int| 0 <= j < v@.len() && (#[trigger] v@[j]) is Some ==> r.0 <= v@[j]->0 <= r.1,
        some_present(v@, v@.len() as int) ==> (exists|j: int| 0 <= j < v@.len() && #[trigger] v@[j] == Some(r.0)),
        some_present(v@, v@.len() as int) ==> (exists|j: int| 0 <= j < v@.len() && #[trigger] v@[j] == Some(r.1)),
        !some_present(v@, v@.len() as int) ==> r == (0i64, 0i64),
{
    proof {
        lemma_present_bounds(v@, v@.len() as int);
    }
    let mut lo: Option<i64> = None;
    let mut hi: Option<i64> = None;
    for i in 0..v.len()
        invariant
            lo matches Some(x) ==> min_present(v@, i as int) == Some(x as int),
            lo is None ==> min_present(v@, i as int) is None,
            hi matches Some(x) ==> max_present(v@, i as int) == Some(x as int),
            hi is None ==> max_present(v@, i as int) is None,
            lo is None <==> hi is None,
            lo matches Some(a) ==> hi matches Some(b) && a <= b,
    {
        match v[i] {
            None => {},
            Some(x) => {
                match lo {
                    None => {
                        lo = Some(x);
                    },
                    Some(y) => {
                        if x < y {
                            lo = Some(x);
                        }
                    },
                }
                match hi {
                    None => {
                        hi = Some(x);
                    },
                    Some(y) => {
                        if x > y {
                            hi = Some(x);
                        }
                    },
                }
            },
        }
    }
    match (lo, hi) {
        (Some(a), Some(b)) => (a, b),
        _ => (0, 0),
    }
}

impl TaxonomyManager {
    /// A manager with no taxonomies.
    pub fn new() -> (m: Self)
        ensures
            m@.numerical.len() == 0,
            m@.categorical.len() == 0,
    {
        let m = Self { numerical_taxonomies: Vec::new(), categorical_taxonomies: Vec::new() };
        assert(m@.numerical =~= Seq::empty());
        assert(m@.categorical =~= Seq::empty());
        m
    }

    /// Stores `taxonomy` under `name`, replacing what `name` held.
    pub fn insert_numerical(&mut self, name: String, taxonomy: NumericalTaxonomy)
        ensures
            final(self)@.numerical == insert_named(old(self)@.numerical, name@, taxonomy@),
            final(self)@.categorical == old(self)@.categorical,
    {
        let ghost m = self@.numerical;
        let n = self.numerical_taxonomies.len();
        let mut i: usize = 0;
        while i < n
            invariant
                n == self.numerical_taxonomies@.len(),
                m == self@.numerical,
                m == old(self)@.numerical,
                self@.categorical == old(self)@.categorical,
                0 <= i <= n,
                first_named_from(m, name@, 0) == first_named_from(m, name@, i as int),
            decreases n - i,
        {
            if self.numerical_taxonomies[i].name == name {
                assert(first_named_from(m, name@, i as int) == Some(i as int));
                self.numerical_taxonomies.set(i, NumericalEntry { name, taxonomy });
                assert(self@.numerical =~= insert_named(m, name@, taxonomy@));
                return;
            }
            i += 1;
        }
        let ghost nm = name@;
        let ghost tv = taxonomy@;
        self.numerical_taxonomies.push(NumericalEntry { name, taxonomy });
        assert(self@.numerical =~= insert_named(m, nm, tv));
    }

    /// Stores `taxonomy` under `name`, replacing what `name` held.
    pub fn insert_categorical(&mut self, name: String, taxonomy: CategoricalTaxonomy)
        ensures
            final(self)@.categorical == insert_named(old(self)@.categorical, name@, taxonomy@),
            final(self)@.numerical == old(self)@.numerical,
    {
        let ghost m = self@.categorical;
        let n = self.categorical_taxonomies.len();
        let mut i: usize = 0;
        while i < n
            invariant
                n == self.categorical_taxonomies@.len(),
                m == self@.categorical,
                m == old(self)@.categorical,
                self@.numerical == old(self)@.numerical,
                0 <= i <= n,
                first_named_from(m, name@, 0) == first_named_from(m, name@, i as int),
            decreases n - i,
        {
            if self.categorical_taxonomies[i].name == name {
                assert(first_named_from(m, name@, i as int) == Some(i as int));
                self.categorical_taxonomies.set(i, CategoricalEntry { name, taxonomy });
                assert(self@.categorical =~= insert_named(m, name@, taxonomy@));
                return;
            }
            i += 1;
        }
        let ghost nm = name@;
        let ghost tv = taxonomy@;
        self.categorical_taxonomies.push(CategoricalEntry { name, taxonomy });
        assert(self@.categorical =~= insert_named(m, nm, tv));
    }

    /// The numerical taxonomy stored under `name`.
    pub fn numerical(&self, name: &str) -> (r: Option<&NumericalTaxonomy>)
        ensures
            match lookup_named(self@.numerical, name@) {
                Some(t) => r matches Some(x) && x@ == t,
                None => r is None,
            },
    {
        let ghost m = self@.numerical;
        let n = self.numerical_taxonomies.len();
        let mut i: usize = 0;
        while i < n
            invariant
                n == self.numerical_taxonomies@.len(),
                m == self@.numerical,
                0 <= i <= n,
                first_named_from(m, name@, 0) == first_named_from(m, name@, i as int),
            decreases n - i,
        {
            if crate::text::str_eq_string(name, &self.numerical_taxonomies[i].name) {
                assert(first_named_from(m, name@, i as int) == Some(i as int));
                return Some(&self.numerical_taxonomies[i].taxonomy);
            }
            i += 1;
        }
        None
    }

    /// The categorical taxonomy stored under `name`.
    pub fn categorical(&self, name: &str) -> (r: Option<&CategoricalTaxonomy>)
        ensures
            match lookup_named(self@.categorical, name@) {
                Some(t) => r matches Some(x) && x@ == t && exists|j: int|
                    0 <= j < self.categorical_taxonomies@.len() && *x
                        == (#[trigger] self.categorical_taxonomies@[j]).taxonomy,
                None => r is None,
            },
    {
        let ghost m = self@.categorical;
        let n = self.categorical_taxonomies.len();
        let mut i: usize = 0;
        while i < n
            invariant
                n == self.categorical_taxonomies@.len(),
                m == self@.categorical,
                0 <= i <= n,
                first_named_from(m, name@, 0) == first_named_from(m, name@, i as int),
            decreases n - i,
        {
            if crate::text::str_eq_string(name, &self.categorical_taxonomies[i].name) {
                assert(first_named_from(m, name@, i as int) == Some(i as int));
                assert(self.categorical_taxonomies@[i as int].taxonomy == self.categorical_taxonomies[i as int].taxonomy);
                return Some(&self.categorical_taxonomies[i].taxonomy);
            }
            i += 1;
        }
        None
    }
}


impl TaxonomyManager {
    /// Number of generalization steps of the taxonomy of column `name` (see `qi_height_spec`).
    pub fn get_qi_height(&self, name: &str) -> (r: usize)
        ensures
            r == qi_height_spec(self@, name@),
    {
        match self.numerical(name) {
            Some(t) => {
                let ghost ns = num_nodes_view(t.nodes@);
                let mut top: usize = 0;
                for i in 0..t.nodes.len()
                    invariant
                        ns == num_nodes_view(t.nodes@),
                        top == num_max_level_upto(ns, i as int),
                {
                    assert(ns[i as int].level == t.nodes[i as int].level);
                    if t.nodes[i].level > top {
                        top = t.nodes[i].level;
                    }
                }
                if top >= 1 {
                    top - 1
                } else {
                    0
                }
            },
            None => match self.categorical(name) {
                Some(t) => {
                    let ghost ns = nodes_view(t.nodes@);
                    let mut top: usize = 0;
                    for i in 0..t.nodes.len()
                        invariant
                            ns == nodes_view(t.nodes@),
                            top == max_level_upto(ns, i as int),
                    {
                        assert(ns[i as int].level == t.nodes[i as int].level);
                        if t.nodes[i].level > top {
                            top = t.nodes[i].level;
                        }
                    }
                    top
                },
                None => 0,
            },
        }
    }

    /// Builds the taxonomy of each quasi-identifier column of `df`, in order,
    /// stored under the column's name: for a numerical one, over the range of
    /// the column's non-null values (0 to 0 when there is none), with leaves
    /// of its bucket size grouped three by three; for a categorical one, from
    /// `hierarchies[i]`, the hierarchy definition given for the `i`-th
    /// quasi-identifier. Fails on the first quasi-identifier whose taxonomy
    /// cannot be built, naming its column.
    pub fn build_from_qis(
        df: &Table,
        qis: &QuasiIdentifiers,
        hierarchies: &Vec<Option<CategoricalHierarchy>>,
    ) -> (r: Result<Self, TaxonomyError>)
        ensures
            match r {
                Ok(m) => (forall|i: int|
                    0 <= i < qis.0@.len() ==> (#[trigger] failure_at(*df, qis.0@, hierarchies@, i)) is None)
                    && m@ == manager_upto(*df, qis.0@, hierarchies@, qis.0@.len() as int),
                Err(e) => exists|i: int|
                    0 <= i < qis.0@.len() && (forall|j: int|
                        0 <= j < i ==> (#[trigger] failure_at(*df, qis.0@, hierarchies@, j)) is None)
                        && match #[trigger] failure_at(*df, qis.0@, hierarchies@, i) {
                        Some(f) => reports(e, f, qis.0@[i].column_name@),
                        None => false,
                    },
            },
    {
        let mut manager = Self::new();
        assert(manager@.numerical =~= manager_upto(*df, qis.0@, hierarchies@, 0).numerical);
        assert(manager@.categorical =~= manager_upto(*df, qis.0@, hierarchies@, 0).categorical);
        let n = qis.0.len();
        for i in 0..n
            invariant
                n == qis.0@.len(),
                manager@ == manager_upto(*df, qis.0@, hierarchies@, i as int),
                forall|j: int|
                    0 <= j < i ==> (#[trigger] failure_at(*df, qis.0@, hierarchies@, j)) is None,
        {
            let qi: &QuasiIdentifier = &qis.0[i];
            assert(qis.0@[i as int] == *qi);
            let ghost name = qi.column_name@;
            proof {
                lemma_first_column(df.columns@, name, 0);
            }
            match &qi.qi_type {
                QIType::Numerical { leaf_bucket_size } => {
                    let c = df.column_index(qi.column_name.as_str());
                    match c {
                        None => {
                            let e = TaxonomyError::ColumnNotFound(qi.column_name.clone());
                            assert(failure_at(*df, qis.0@, hierarchies@, i as int) == Some(BuildFailure::ColumnNotFound));
                            assert(reports(e, BuildFailure::ColumnNotFound, qis.0@[i as int].column_name@));
                            return Err(e);
                        },
                        Some(ci) => {
                            assert(first_column_from(df.columns@, name, 0) == Some(ci as int));
                            assert(df.columns@[ci as int].data == df.columns[ci as int].data);
                            match &df.columns[ci].data {
                                ColumnData::Str(_) => {
                                    let e = TaxonomyError::NotIntegerColumn(qi.column_name.clone());
                                    assert(failure_at(*df, qis.0@, hierarchies@, i as int) == Some(BuildFailure::NotIntegerColumn));
                                    assert(reports(e, BuildFailure::NotIntegerColumn, qis.0@[i as int].column_name@));
                                    return Err(e);
                                },
                                ColumnData::Int(v) => {
                                    if *leaf_bucket_size < 1 {
                                        let e = TaxonomyError::InvalidBucketSize(qi.column_name.clone());
                                        assert(failure_at(*df, qis.0@, hierarchies@, i as int) == Some(BuildFailure::InvalidBucketSize));
                                        assert(reports(e, BuildFailure::InvalidBucketSize, qis.0@[i as int].column_name@));
                                        return Err(e);
                                    }
                                    let (lo, hi) = int_range(v);
                                    assert(int_cells(*df, name) == v@);
                                    let t = NumericalTaxonomy::create_from_data_range(
                                        qi.column_name.as_str(),
                                        lo,
                                        hi,
                                        *leaf_bucket_size,
                                        3,
                                    );
                                    manager.insert_numerical(qi.column_name.clone(), t);
                                },
                            }
                        },
                    }
                },
                QIType::Categorical { .. } => {
                    if i >= hierarchies.len() {
                        let e = TaxonomyError::MissingHierarchy(qi.column_name.clone());
                        assert(failure_at(*df, qis.0@, hierarchies@, i as int) == Some(BuildFailure::MissingHierarchy));
                        assert(reports(e, BuildFailure::MissingHierarchy, qis.0@[i as int].column_name@));
                        return Err(e);
                    }
                    match &hierarchies[i] {
                        None => {
                            let e = TaxonomyError::MissingHierarchy(qi.column_name.clone());
                            assert(failure_at(*df, qis.0@, hierarchies@, i as int) == Some(BuildFailure::MissingHierarchy));
                            assert(reports(e, BuildFailure::MissingHierarchy, qis.0@[i as int].column_name@));
                            return Err(e);
                        },
                        Some(h) => {
                            let d = hierarchy_depth(h);
                            if d.is_none() {
                                let e = TaxonomyError::HierarchyTooDeep(qi.column_name.clone());
                                assert(failure_at(*df, qis.0@, hierarchies@, i as int) == Some(BuildFailure::HierarchyTooDeep));
                                assert(reports(e, BuildFailure::HierarchyTooDeep, qis.0@[i as int].column_name@));
                                return Err(e);
                            }
                            let t = CategoricalTaxonomy::create_from_hierarchy(
                                qi.column_name.as_str(),
                                h,
                            );
                            match t {
                                Ok(t) => {
                                    manager.insert_categorical(qi.column_name.clone(), t);
                                },
                                Err(e) => {
                                    return Err(e);
                                },
                            }
                        },
                    }
                },
            }
            assert(manager@ =~= manager_upto(*df, qis.0@, hierarchies@, i + 1));
        }
        Ok(manager)
    }
}

} // verus!
