//! A dataset: a table with its quasi-identifiers and their taxonomies.
use vstd::prelude::*;
use crate::data::qi::QuasiIdentifiers;
use crate::data::table::Table;
use crate::taxonomy::{failure_at, manager_upto, reports, TaxonomyError, TaxonomyManager};
use crate::taxonomy::categorical::CategoricalHierarchy;

verus! {

/// A table with its quasi-identifiers and the taxonomies that generalize them.
#[derive(Clone)]
pub struct Dataset {
    pub df: Table,
    pub qis: QuasiIdentifiers,
    pub taxonomies: TaxonomyManager,
}

impl Dataset {
    /// The table's columns all have its height, and every categorical
    /// taxonomy is well formed.
    pub open spec fn wf(&self) -> bool {
        &&& self.df.wf()
        &&& forall|i: int|
            0 <= i < self.taxonomies.categorical_taxonomies@.len()
                ==> (#[trigger] self.taxonomies.categorical_taxonomies@[i]).taxonomy.wf()
    }

    /// A dataset from an already anonymized table and pre-built taxonomies.
    pub fn from_anonymized(df: Table, qis: QuasiIdentifiers, taxonomies: TaxonomyManager) -> (d: Self)
        ensures
            d.df == df,
            d.qis == qis,
            d.taxonomies == taxonomies,
    {
        Self { df, qis, taxonomies }
    }
}


impl Dataset {
    /// A dataset over a copy of `df` and `qis`, with the taxonomies built for
    /// them (see `TaxonomyManager::build_from_qis`); fails as that does.
    pub fn build(df: &Table, qis: &QuasiIdentifiers, hierarchies: &Vec<Option<CategoricalHierarchy>>) -> (r: Result<
        Self,
        TaxonomyError,
    >)
        ensures
            match r {
                Ok(d) => d.df@ == df@ && d.df.wf() == df.wf() && d.qis.0@ == qis.0@ && (forall|i: int|
                    0 <= i < qis.0@.len() ==> (#[trigger] failure_at(*df, qis.0@, hierarchies@, i)) is None)
                    && d.taxonomies@ == manager_upto(*df, qis.0@, hierarchies@, qis.0@.len() as int),
                Err(e) => exists|i: int|
                    0 <= i < qis.0@.len() && (forall|j: int|
                        0 <= j < i ==> (#[trigger] failure_at(*df, qis.0@, hierarchies@, j)) is None)
                        && match #[trigger] failure_at(*df, qis.0@, hierarchies@, i) {
                        Some(f) => reports(e, f, qis.0@[i].column_name@),
                        None => false,
                    },
            },
    {
        let taxonomies = TaxonomyManager::build_from_qis(df, qis, hierarchies)?;
        Ok(Self { df: df.copy(), qis: QuasiIdentifiers(crate::algorithms::incognito::copy_qis(&qis.0)), taxonomies })
    }
}

} // verus!
