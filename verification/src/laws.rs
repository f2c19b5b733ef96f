use crate::feature::FeatureModel;
use crate::model::train_example;
use crate::model::train_feature;
use crate::model::train_spec;
use crate::model::train_token;
use crate::model::train_tokens;
use crate::store::sat_add;
use crate::store::StoreModel;
use vstd::prelude::*;

verus! {

/// The number of feature instances in a training batch: the sum over its
/// examples of the number of features.
pub open spec fn flat_count(es: Seq<(Seq<char>, Seq<FeatureModel>)>) -> nat
    decreases es.len(),
{
    if es.len() == 0 {
        0
    } else {
        flat_count(es.drop_last()) + es.last().1.len()
    }
}

/// `a` is an initial segment of `b`.
pub open spec fn list_prefix(a: Seq<Seq<char>>, b: Seq<Seq<char>>) -> bool {
    a.len() <= b.len() && forall|i: int| 0 <= i < a.len() ==> a[i] == b[i]
}

proof fn lemma_token_step(sm: StoreModel, m: Seq<char>, f: Seq<char>, c: Seq<char>, t: Seq<char>, n: nat)
    ensures
        forall|m2: Seq<char>|
            train_token(sm, m, f, c, t, n).total_count(m2) == sm.total_count(m2),
        forall|m2: Seq<char>, f2: Seq<char>|
            list_prefix(
                sm.vocab_list(m2, f2),
                #[trigger] train_token(sm, m, f, c, t, n).vocab_list(m2, f2),
            ),
        forall|m2: Seq<char>|
            list_prefix(sm.class_list(m2), #[trigger] train_token(sm, m, f, c, t, n).class_list(m2)),
{
}

proof fn lemma_tokens_step(
    sm: StoreModel,
    m: Seq<char>,
    f: Seq<char>,
    c: Seq<char>,
    ps: Seq<(Seq<char>, nat)>,
)
    ensures
        forall|m2: Seq<char>|
            train_tokens(sm, m, f, c, ps).total_count(m2) == sm.total_count(m2),
        forall|m2: Seq<char>, f2: Seq<char>|
            list_prefix(
                sm.vocab_list(m2, f2),
                #[trigger] train_tokens(sm, m, f, c, ps).vocab_list(m2, f2),
            ),
        forall|m2: Seq<char>|
            list_prefix(sm.class_list(m2), #[trigger] train_tokens(sm, m, f, c, ps).class_list(m2)),
    decreases ps.len(),
{
    if ps.len() > 0 {
        lemma_tokens_step(sm, m, f, c, ps.drop_last());
        let mid = train_tokens(sm, m, f, c, ps.drop_last());
        lemma_token_step(mid, m, f, c, ps.last().0, ps.last().1);
    }
}

proof fn lemma_feature_step(
    sm: StoreModel,
    m: Seq<char>,
    stop: Set<Seq<char>>,
    c: Seq<char>,
    f: FeatureModel,
)
    ensures
        train_feature(sm, m, stop, c, f).total_count(m) == sat_add(sm.total_count(m), 1),
        forall|m2: Seq<char>, f2: Seq<char>|
            list_prefix(
                sm.vocab_list(m2, f2),
                #[trigger] train_feature(sm, m, stop, c, f).vocab_list(m2, f2),
            ),
        forall|m2: Seq<char>|
            list_prefix(
                sm.class_list(m2),
                #[trigger] train_feature(sm, m, stop, c, f).class_list(m2),
            ),
{
    let base = sm.bump(crate::store::prior_key(m, c), 1).with_class(m, c).bump(
        crate::store::total_key(m),
        1,
    );
    assert(base.total_count(m) == sat_add(sm.total_count(m), 1));
    match f.feature_type {
        crate::feature::FeatureType::Text => {
            lemma_tokens_step(base, m, f.name, c, crate::model::text_pairs(f.value, stop));
        },
        crate::feature::FeatureType::Category => {
            lemma_token_step(base, m, f.name, c, crate::text::trim_spec(f.value), 1);
        },
        crate::feature::FeatureType::Gaussian => {},
        crate::feature::FeatureType::GaussianStd => {},
    }
}

proof fn lemma_example_step(
    sm: StoreModel,
    m: Seq<char>,
    stop: Set<Seq<char>>,
    c: Seq<char>,
    fs: Seq<FeatureModel>,
)
    requires
        sm.total_count(m) <= u64::MAX,
    ensures
        train_example(sm, m, stop, c, fs).total_count(m) == sat_add(sm.total_count(m), fs.len()),
        forall|m2: Seq<char>, f2: Seq<char>|
            list_prefix(
                sm.vocab_list(m2, f2),
                #[trigger] train_example(sm, m, stop, c, fs).vocab_list(m2, f2),
            ),
        forall|m2: Seq<char>|
            list_prefix(
                sm.class_list(m2),
                #[trigger] train_example(sm, m, stop, c, fs).class_list(m2),
            ),
    decreases fs.len(),
{
    if fs.len() > 0 {
        lemma_example_step(sm, m, stop, c, fs.drop_last());
        let mid = train_example(sm, m, stop, c, fs.drop_last());
        lemma_feature_step(mid, m, stop, c, fs.last());
        assert(sat_add(sat_add(sm.total_count(m), fs.drop_last().len()), 1) == sat_add(
            sm.total_count(m),
            fs.len(),
        ));
    }
}

/// The monotonic-counts law.  Training a batch adds exactly the batch's
/// number of feature instances to the model's total data count, saturating
/// only at the counter bound; every vocabulary of every model only ever
/// grows, each old vocabulary remaining an initial segment of the new one
/// (so no vocabulary size ever decreases and no known token is ever
/// forgotten); and every class list likewise only ever grows.
pub proof fn lemma_train_monotonic_counts(
    sm: StoreModel,
    m: Seq<char>,
    stop: Set<Seq<char>>,
    es: Seq<(Seq<char>, Seq<FeatureModel>)>,
)
    requires
        sm.total_count(m) <= u64::MAX,
    ensures
        train_spec(sm, m, stop, es).total_count(m) == sat_add(sm.total_count(m), flat_count(es)),
        forall|m2: Seq<char>, f2: Seq<char>|
            list_prefix(
                sm.vocab_list(m2, f2),
                #[trigger] train_spec(sm, m, stop, es).vocab_list(m2, f2),
            ),
        forall|m2: Seq<char>, f2: Seq<char>|
            sm.vocab_size(m2, f2) <= #[trigger] train_spec(sm, m, stop, es).vocab_size(m2, f2),
        forall|m2: Seq<char>|
            list_prefix(
                sm.class_list(m2),
                #[trigger] train_spec(sm, m, stop, es).class_list(m2),
            ),
    decreases es.len(),
{
    if es.len() > 0 {
        lemma_train_monotonic_counts(sm, m, stop, es.drop_last());
        let mid = train_spec(sm, m, stop, es.drop_last());
        lemma_example_step(mid, m, stop, es.last().0, es.last().1);
        assert(sat_add(
            sat_add(sm.total_count(m), flat_count(es.drop_last())),
            es.last().1.len(),
        ) == sat_add(sm.total_count(m), flat_count(es)));
    }
}

/// While the model's total data count stays below the counter bound,
/// training adds exactly the number of feature instances trained.
pub proof fn lemma_train_total_exact(
    sm: StoreModel,
    m: Seq<char>,
    stop: Set<Seq<char>>,
    es: Seq<(Seq<char>, Seq<FeatureModel>)>,
)
    requires
        sm.total_count(m) + flat_count(es) <= u64::MAX,
    ensures
        train_spec(sm, m, stop, es).total_count(m) == sm.total_count(m) + flat_count(es),
{
    lemma_train_monotonic_counts(sm, m, stop, es);
}

} // verus!
