//! Running an anonymization algorithm over a dataset.
use vstd::prelude::*;
use crate::data::dataset::Dataset;
use crate::data::qi::QuasiIdentifiers;

verus! {

/// What an anonymization run gives back.
pub struct AnonymizerOutput {
    pub anonymized_dataset: Dataset,
}

/// A dataset and the quasi-identifiers to anonymize it on.
pub struct Anonymizer {
    pub dataset: Dataset,
    pub quasi_identifiers: QuasiIdentifiers,
}

impl Anonymizer {
    /// An anonymizer over `dataset` and `quasi_identifiers`.
    pub fn new(dataset: Dataset, quasi_identifiers: QuasiIdentifiers) -> (a: Self)
        ensures
            a.dataset == dataset,
            a.quasi_identifiers == quasi_identifiers,
    {
        Self { dataset, quasi_identifiers }
    }
}

} // verus!
