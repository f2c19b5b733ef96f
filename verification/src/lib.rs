//! An incremental (online) naive Bayes classification engine.
//!
//! The engine accumulates sufficient statistics for multinomial text,
//! categorical and Gaussian features in a named, independently addressable
//! statistics store, and turns those statistics into the inputs of the
//! per-class log-likelihood computation.  Everything that manipulates
//! counts, vocabularies, classes and tokens is verified; the floating-point
//! evaluation of log-densities and the final normalization live outside
//! this crate, consuming the exact integer evidence produced here.
#![verifier::loop_isolation(false)]

mod feature;
mod laws;
mod model;
mod store;
mod text;

pub use feature::Feature;
pub use feature::FeatureModel;
pub use feature::FeatureType;
pub use laws::lemma_train_monotonic_counts;
pub use laws::lemma_train_total_exact;
pub use model::ClassEvidence;
pub use model::ClassEvidenceModel;
pub use model::Model;
pub use model::TermCounts;
pub use model::TermModel;
pub use store::CounterKind;
pub use store::ModelHashMapStore;
pub use store::ModelStore;
pub use store::StoreModel;
pub use text::clean_text;
pub use text::count;
pub use text::pair_count;
pub use text::trim_value;
