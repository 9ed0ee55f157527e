//! Quasi-identifiers: the columns whose values, combined, could single a
//! person out.
use vstd::prelude::*;
use crate::text::{push_decimal, nat_decimal, string_from_chars};

verus! {

/// How a quasi-identifier column is generalized.
#[derive(Clone, Debug, PartialEq, Eq, Hash, PartialOrd, Ord)]
pub enum QIType {
    /// Integer values, grouped into intervals `leaf_bucket_size` wide at the bottom.
    Numerical { leaf_bucket_size: i64 },
    /// Labels, generalized along the hierarchy stored at `path_to_json_hierarchy`.
    Categorical { path_to_json_hierarchy: String },
}

/// Whether two kinds are the same: same variant, same field.
pub open spec fn same_qi_type(a: QIType, b: QIType) -> bool {
    match (a, b) {
        (QIType::Numerical { leaf_bucket_size: x }, QIType::Numerical { leaf_bucket_size: y }) => x == y,
        (
            QIType::Categorical { path_to_json_hierarchy: p },
            QIType::Categorical { path_to_json_hierarchy: q },
        ) => p@ == q@,
        _ => false,
    }
}

impl QIType {
    /// A copy of this kind.
    pub fn copy(&self) -> (r: QIType)
        ensures
            r == *self,
    {
        match self {
            QIType::Numerical { leaf_bucket_size } => QIType::Numerical {
                leaf_bucket_size: *leaf_bucket_size,
            },
            QIType::Categorical { path_to_json_hierarchy } => QIType::Categorical {
                path_to_json_hierarchy: path_to_json_hierarchy.clone(),
            },
        }
    }

    /// Whether `self` and `other` are the same kind.
    pub fn same(&self, other: &QIType) -> (r: bool)
        ensures
            r == same_qi_type(*self, *other),
    {
        match (self, other) {
            (QIType::Numerical { leaf_bucket_size: x }, QIType::Numerical { leaf_bucket_size: y }) => *x
                == *y,
            (
                QIType::Categorical { path_to_json_hierarchy: p },
                QIType::Categorical { path_to_json_hierarchy: q },
            ) => *p == *q,
            _ => false,
        }
    }
}

/// One quasi-identifier column.
#[derive(Clone, Debug)]
pub struct QuasiIdentifier {
    pub column_name: String,
    /// The name the column takes while Incognito works on it.
    pub incognito_colname: String,
    pub index: usize,
    pub qi_type: QIType,
}

/// Two quasi-identifiers are the same when their column, kind and index are.
pub open spec fn same_qi(a: QuasiIdentifier, b: QuasiIdentifier) -> bool {
    &&& a.column_name@ == b.column_name@
    &&& same_qi_type(a.qi_type, b.qi_type)
    &&& a.index == b.index
}

impl QuasiIdentifier {
    /// Whether `self` and `other` name the same column, kind and index.
    pub fn same(&self, other: &QuasiIdentifier) -> (r: bool)
        ensures
            r == same_qi(*self, *other),
    {
        self.column_name == other.column_name && self.qi_type.same(&other.qi_type) && self.index
            == other.index
    }

    /// A copy of this quasi-identifier.
    pub fn copy(&self) -> (r: QuasiIdentifier)
        ensures
            r == *self,
    {
        QuasiIdentifier {
            column_name: self.column_name.clone(),
            incognito_colname: self.incognito_colname.clone(),
            index: self.index,
            qi_type: self.qi_type.copy(),
        }
    }
}

/// The name Incognito gives the quasi-identifier at position `i`: `ATT_{i}`.
pub open spec fn incognito_name(i: int) -> Seq<char> {
    seq!['A', 'T', 'T', '_'] + nat_decimal(i as nat)
}

/// The quasi-identifiers of a dataset, in order.
#[derive(Clone, Debug, Default)]
pub struct QuasiIdentifiers(pub Vec<QuasiIdentifier>);

impl QuasiIdentifiers {
    /// One quasi-identifier per `(column name, kind)` pair, in order: the one
    /// at position `i` has index `i` and Incognito name `ATT_{i}`.
    pub fn from_column_names(names: &[(&str, QIType)]) -> (r: Self)
        ensures
            r.0@.len() == names@.len(),
            forall|i: int|
                0 <= i < names@.len() ==> {
                    &&& (#[trigger] r.0@[i]).column_name@ == names@[i].0@
                    &&& r.0@[i].incognito_colname@ == incognito_name(i)
                    &&& r.0@[i].index == i
                    &&& r.0@[i].qi_type == names@[i].1
                },
    {
        let mut qis: Vec<QuasiIdentifier> = Vec::new();
        for i in 0..names.len()
            invariant
                qis@.len() == i,
                forall|j: int|
                    0 <= j < i ==> {
                        &&& (#[trigger] qis@[j]).column_name@ == names@[j].0@
                        &&& qis@[j].incognito_colname@ == incognito_name(j)
                        &&& qis@[j].index == j
                        &&& qis@[j].qi_type == names@[j].1
                    },
        {
            let mut cs: Vec<char> = Vec::new();
            cs.push('A');
            cs.push('T');
            cs.push('T');
            cs.push('_');
            push_decimal(&mut cs, i as u64);
            let att = string_from_chars(&cs);
            assert(att@ =~= incognito_name(i as int));
            let name: &str = names[i].0;
            let qi_type: &QIType = &names[i].1;
            qis.push(
                QuasiIdentifier {
                    index: i,
                    column_name: name.to_owned(),
                    incognito_colname: att,
                    qi_type: qi_type.copy(),
                },
            );
        }
        QuasiIdentifiers(qis)
    }
}

} // verus!
