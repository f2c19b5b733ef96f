use vstd::prelude::*;

verus! {

/// How a feature's raw string value is interpreted by training and
/// prediction.
#[derive(Clone, Copy, Debug, PartialEq, Eq, Structural)]
pub enum FeatureType {
    /// A multinomial feature: the value is cleaned, tokenized and counted
    /// word by word.
    Text,
    /// A categorical feature: the whole trimmed value is one token with
    /// count 1.
    Category,
    /// A continuous feature with a shared, range-derived sigma: per class
    /// only a running mean and count are kept, while the observed minimum
    /// and maximum are tracked per feature across all classes.
    Gaussian,
    /// A continuous feature with a per-class Welford accumulator
    /// (count, mean, m2), from which a per-class sigma is derived.
    GaussianStd,
}

/// One named, typed feature of an example.  The raw value is kept as a
/// string and interpreted lazily according to `feature_type`.
#[derive(Clone, Debug)]
pub struct Feature {
    pub feature_type: FeatureType,
    pub name: String,
    pub value: String,
}

/// The mathematical model of a `Feature`: the same tag with both strings
/// abstracted to character sequences.
pub struct FeatureModel {
    pub feature_type: FeatureType,
    pub name: Seq<char>,
    pub value: Seq<char>,
}

impl View for Feature {
    type V = FeatureModel;

    open spec fn view(&self) -> FeatureModel {
        FeatureModel { feature_type: self.feature_type, name: self.name@, value: self.value@ }
    }
}

impl DeepView for Feature {
    type V = FeatureModel;

    open spec fn deep_view(&self) -> FeatureModel {
        self.view()
    }
}

} // verus!
