use crate::feature::Feature;
use crate::feature::FeatureModel;
use crate::feature::FeatureType;
use crate::store::class_total_key;
use crate::store::prior_key;
use crate::store::total_key;
use crate::store::word_key;
use crate::store::CounterKind;
use crate::store::ModelHashMapStore;
use crate::store::ModelStore;
use crate::store::StoreModel;
use crate::text::clean_spec;
use crate::text::clean_text;
use crate::text::count;
use crate::text::pairs_model;
use crate::text::split_spaces;
use crate::text::stop_set;
use crate::text::token_pairs;
use crate::text::trim_spec;
use crate::text::trim_value;
use vstd::prelude::*;

verus! {

/// The naive Bayes engine over any statistics store: the store for any
/// number of independently named models, and the configured stop words.
/// Training accumulates integer sufficient statistics; prediction reads
/// them back as exact per-class evidence.
pub struct Model<T: ModelStore + Sync> {
    pub model_store: T,
    pub stop_words: Option<Vec<String>>,
}

// ---------------------------------------------------------------------------
// What training does, stated over the store model
// ---------------------------------------------------------------------------

/// The (token, count) pairs that one text value contributes: the cleaned
/// text split into tokens and counted, without the stop words.
pub open spec fn text_pairs(value: Seq<char>, stop: Set<Seq<char>>) -> Seq<(Seq<char>, nat)> {
    token_pairs(split_spaces(clean_spec(value)), stop)
}

/// One token trained into class `c` of model `m` under feature `f` with
/// count `n`: the token's count and the feature's all-token count both
/// grow by `n`, the token joins the feature's vocabulary, and the class
/// is recorded for the model.
pub open spec fn train_token(
    sm: StoreModel,
    m: Seq<char>,
    f: Seq<char>,
    c: Seq<char>,
    t: Seq<char>,
    n: nat,
) -> StoreModel {
    sm.bump(word_key(m, f, c, t), n).with_word(m, f, t).with_class(m, c).bump(
        class_total_key(m, f, c),
        n,
    )
}

/// A list of (token, count) pairs trained in order.
pub open spec fn train_tokens(
    sm: StoreModel,
    m: Seq<char>,
    f: Seq<char>,
    c: Seq<char>,
    ps: Seq<(Seq<char>, nat)>,
) -> StoreModel
    decreases ps.len(),
{
    if ps.len() == 0 {
        sm
    } else {
        train_token(
            train_tokens(sm, m, f, c, ps.drop_last()),
            m,
            f,
            c,
            ps.last().0,
            ps.last().1,
        )
    }
}

/// One feature instance of a labeled example trained into model `m`: the
/// class prior and the total data count grow by one whatever the feature
/// kind; a text feature then trains its token counts, a categorical
/// feature its single trimmed token.  The numeric accumulation of the
/// Gaussian kinds lives outside the store.
pub open spec fn train_feature(
    sm: StoreModel,
    m: Seq<char>,
    stop: Set<Seq<char>>,
    c: Seq<char>,
    f: FeatureModel,
) -> StoreModel {
    let base = sm.bump(prior_key(m, c), 1).with_class(m, c).bump(total_key(m), 1);
    match f.feature_type {
        FeatureType::Text => train_tokens(base, m, f.name, c, text_pairs(f.value, stop)),
        FeatureType::Category => train_token(base, m, f.name, c, trim_spec(f.value), 1),
        FeatureType::Gaussian => base,
        FeatureType::GaussianStd => base,
    }
}

/// One labeled example trained feature by feature, in order.
pub open spec fn train_example(
    sm: StoreModel,
    m: Seq<char>,
    stop: Set<Seq<char>>,
    c: Seq<char>,
    fs: Seq<FeatureModel>,
) -> StoreModel
    decreases fs.len(),
{
    if fs.len() == 0 {
        sm
    } else {
        train_feature(train_example(sm, m, stop, c, fs.drop_last()), m, stop, c, fs.last())
    }
}

/// A batch of labeled examples trained in order.
pub open spec fn train_spec(
    sm: StoreModel,
    m: Seq<char>,
    stop: Set<Seq<char>>,
    es: Seq<(Seq<char>, Seq<FeatureModel>)>,
) -> StoreModel
    decreases es.len(),
{
    if es.len() == 0 {
        sm
    } else {
        train_example(
            train_spec(sm, m, stop, es.drop_last()),
            m,
            stop,
            es.last().0,
            es.last().1,
        )
    }
}

/// A batch of labeled examples abstracted to class labels and feature
/// models.
pub open spec fn examples_model(es: Seq<(String, Vec<Feature>)>) -> Seq<
    (Seq<char>, Seq<FeatureModel>),
> {
    es.map(|i: int, e: (String, Vec<Feature>)| (e.0@, e.1.deep_view()))
}

// ---------------------------------------------------------------------------
// The engine
// ---------------------------------------------------------------------------

impl Model<ModelHashMapStore> {
    /// A fresh engine with the in-memory store, empty, and no stop words.
    pub fn new() -> (m: Model<ModelHashMapStore>)
        ensures
            m.wf(),
            m.model_store@ == StoreModel::init(),
            m.stop_words is None,
    {
        Model { model_store: ModelHashMapStore::new(), stop_words: Option::None }
    }
}

impl<T: ModelStore + Sync> Model<T> {
    /// The engine's internal invariant: its store's invariant holds.
    pub open spec fn wf(self) -> bool {
        self.model_store.inv()
    }

    /// The engine with the given stop words configured; the statistics are
    /// kept as they are.
    pub fn with_stop_words(self, stop_words: Vec<String>) -> (m: Model<T>)
        ensures
            m.model_store == self.model_store,
            m.stop_words == Option::Some(stop_words),
    {
        Model { model_store: self.model_store, stop_words: Option::Some(stop_words) }
    }

    /// Add `v` to the prior count of class `c` and record the class.
    pub fn add_to_priors_count_of_class(&mut self, model_name: &str, c: &str, v: u64)
        requires
            old(self).wf(),
        ensures
            final(self).wf(),
            final(self).model_store@ == old(self).model_store@.bump(
                prior_key(model_name@, c@),
                v as nat,
            ).with_class(model_name@, c@),
            final(self).stop_words == old(self).stop_words,
    {
        proof {
            reveal_strlit("");
            assert(""@ =~= Seq::<char>::empty());
        }
        let _: u64 = self.model_store.map_add(model_name, CounterKind::ClassPrior, "", c, "", v);
        self.model_store.save_class(model_name, c);
    }

    /// The prior count of class `c`, zero if never trained.
    pub fn get_priors_count_of_class(&self, model_name: &str, c: &str) -> (r: u64)
        requires
            self.wf(),
        ensures
            r as nat == self.model_store@.prior_count(model_name@, c@),
    {
        proof {
            reveal_strlit("");
            assert(""@ =~= Seq::<char>::empty());
        }
        self.model_store.map_get(model_name, CounterKind::ClassPrior, "", c, "")
    }

    /// Add `v` to the model's total data count.
    pub fn add_to_total_data_count(&mut self, model_name: &str, v: u64)
        requires
            old(self).wf(),
        ensures
            final(self).wf(),
            final(self).model_store@ == old(self).model_store@.bump(total_key(model_name@), v as nat),
            final(self).stop_words == old(self).stop_words,
    {
        proof {
            reveal_strlit("");
            assert(""@ =~= Seq::<char>::empty());
        }
        let _: u64 = self.model_store.map_add(model_name, CounterKind::TotalData, "", "", "", v);
    }

    /// The model's total data count, zero if never trained.
    pub fn get_total_data_count(&self, model_name: &str) -> (r: u64)
        requires
            self.wf(),
        ensures
            r as nat == self.model_store@.total_count(model_name@),
    {
        proof {
            reveal_strlit("");
            assert(""@ =~= Seq::<char>::empty());
        }
        self.model_store.map_get(model_name, CounterKind::TotalData, "", "", "")
    }

    /// Add `v` to the count of `word` under `feature_name` for class `c`,
    /// record the word in the feature's vocabulary, and record the class.
    pub fn add_to_count_of_word_in_class(
        &mut self,
        model_name: &str,
        feature_name: &str,
        c: &str,
        word: &str,
        v: u64,
    )
        requires
            old(self).wf(),
        ensures
            final(self).wf(),
            final(self).model_store@ == old(self).model_store@.bump(
                word_key(model_name@, feature_name@, c@, word@),
                v as nat,
            ).with_word(model_name@, feature_name@, word@).with_class(model_name@, c@),
            final(self).stop_words == old(self).stop_words,
    {
        let _: u64 = self.model_store.map_add(
            model_name,
            CounterKind::WordInClass,
            feature_name,
            c,
            word,
            v,
        );
        self.add_unique_word_in_feature(model_name, feature_name, word);
        self.model_store.save_class(model_name, c);
    }

    /// The count of `word` under `feature_name` for class `c`.
    pub fn get_count_of_word_in_class(
        &self,
        model_name: &str,
        feature_name: &str,
        c: &str,
        word: &str,
    ) -> (r: u64)
        requires
            self.wf(),
        ensures
            r as nat == self.model_store@.word_count(model_name@, feature_name@, c@, word@),
    {
        self.model_store.map_get(model_name, CounterKind::WordInClass, feature_name, c, word)
    }

    /// Add `v` to the all-token count of `feature_name` for class `c`.
    pub fn add_to_count_of_all_word_in_class(
        &mut self,
        model_name: &str,
        feature_name: &str,
        c: &str,
        v: u64,
    )
        requires
            old(self).wf(),
        ensures
            final(self).wf(),
            final(self).model_store@ == old(self).model_store@.bump(
                class_total_key(model_name@, feature_name@, c@),
                v as nat,
            ),
            final(self).stop_words == old(self).stop_words,
    {
        proof {
            reveal_strlit("");
            assert(""@ =~= Seq::<char>::empty());
        }
        let _: u64 = self.model_store.map_add(
            model_name,
            CounterKind::ClassWordTotal,
            feature_name,
            c,
            "",
            v,
        );
    }

    /// The all-token count of `feature_name` for class `c`.
    pub fn get_count_of_all_word_in_class(
        &self,
        model_name: &str,
        feature_name: &str,
        c: &str,
    ) -> (r: u64)
        requires
            self.wf(),
        ensures
            r as nat == self.model_store@.class_word_total(model_name@, feature_name@, c@),
    {
        proof {
            reveal_strlit("");
            assert(""@ =~= Seq::<char>::empty());
        }
        self.model_store.map_get(model_name, CounterKind::ClassWordTotal, feature_name, c, "")
    }

    /// Record `word` in the vocabulary of `feature_name`, once.
    pub fn add_unique_word_in_feature(&mut self, model_name: &str, feature_name: &str, word: &str)
        requires
            old(self).wf(),
        ensures
            final(self).wf(),
            final(self).model_store@ == old(self).model_store@.with_word(
                model_name@,
                feature_name@,
                word@,
            ),
            final(self).stop_words == old(self).stop_words,
    {
        self.model_store.vocab_add(model_name, feature_name, word);
    }

    /// Whether `word` was ever observed under `feature_name`, in any class.
    pub fn is_word_appeared_in_feature(
        &self,
        model_name: &str,
        feature_name: &str,
        word: &str,
    ) -> (b: bool)
        requires
            self.wf(),
        ensures
            b == self.model_store@.knows_word(model_name@, feature_name@, word@),
    {
        self.model_store.vocab_contains(model_name, feature_name, word)
    }

    /// The number of distinct tokens ever observed under `feature_name`:
    /// the smoothing vocabulary size.
    pub fn get_count_of_unique_words_in_feature(
        &self,
        model_name: &str,
        feature_name: &str,
    ) -> (r: u64)
        requires
            self.wf(),
        ensures
            r as nat == self.model_store@.vocab_size(model_name@, feature_name@),
    {
        self.model_store.vocab_size(model_name, feature_name)
    }

    /// Train a batch of labeled examples into model `model_name`.  For
    /// every feature instance the class prior and the total data count
    /// grow by one; text and categorical features additionally accumulate
    /// their token counts and vocabulary.  The numeric accumulation of
    /// Gaussian features is the caller's collaborator's concern and leaves
    /// the store untouched here.
    pub fn train(&mut self, model_name: &str, class_feature_pairs: &[(String, Vec<Feature>)])
        requires
            old(self).wf(),
        ensures
            final(self).wf(),
            final(self).model_store@ == train_spec(
                old(self).model_store@,
                model_name@,
                stop_set(old(self).stop_words),
                examples_model(class_feature_pairs@),
            ),
            final(self).stop_words == old(self).stop_words,
    {
        let ghost m = model_name@;
        let ghost stop = stop_set(old(self).stop_words);
        let ghost sm0 = old(self).model_store@;
        let ghost es = examples_model(class_feature_pairs@);
        proof {
            assert(es.subrange(0, 0) =~= Seq::empty());
        }
        let n = class_feature_pairs.len();
        let mut i: usize = 0;
        while i < n
            invariant
                self.wf(),
                self.stop_words == old(self).stop_words,
                n == class_feature_pairs@.len(),
                0 <= i <= n,
                self.model_store@ == train_spec(sm0, m, stop, es.subrange(0, i as int)),
            decreases n - i,
        {
            let pair = &class_feature_pairs[i];
            let ghost base_i = train_spec(sm0, m, stop, es.subrange(0, i as int));
            let ghost fs = pair.1.deep_view();
            proof {
                assert(fs.subrange(0, 0) =~= Seq::empty());
            }
            let k = pair.1.len();
            let mut j: usize = 0;
            while j < k
                invariant
                    self.wf(),
                    self.stop_words == old(self).stop_words,
                    k == pair.1@.len(),
                    0 <= j <= k,
                    self.model_store@ == train_example(
                        base_i,
                        m,
                        stop,
                        pair.0@,
                        fs.subrange(0, j as int),
                    ),
                decreases k - j,
            {
                let f = &pair.1[j];
                let ghost base_j = train_example(base_i, m, stop, pair.0@, fs.subrange(0, j as int));
                self.add_to_priors_count_of_class(model_name, pair.0.as_str(), 1);
                self.add_to_total_data_count(model_name, 1);
                let ghost base_f = base_j.bump(prior_key(m, pair.0@), 1).with_class(
                    m,
                    pair.0@,
                ).bump(total_key(m), 1);
                match f.feature_type {
                    FeatureType::Text => {
                        let cleaned = clean_text(f.value.as_str());
                        let word_counts = count(cleaned.as_str(), &self.stop_words);
                        let ghost ps = pairs_model(word_counts@);
                        proof {
                            assert(ps == text_pairs(fs[j as int].value, stop));
                            assert(ps.subrange(0, 0) =~= Seq::empty());
                        }
                        let wn = word_counts.len();
                        let mut l: usize = 0;
                        while l < wn
                            invariant
                                self.wf(),
                                self.stop_words == old(self).stop_words,
                                wn == word_counts@.len(),
                                0 <= l <= wn,
                                self.model_store@ == train_tokens(
                                    base_f,
                                    m,
                                    fs[j as int].name,
                                    pair.0@,
                                    ps.subrange(0, l as int),
                                ),
                            decreases wn - l,
                        {
                            let w = &word_counts[l];
                            self.add_to_count_of_word_in_class(
                                model_name,
                                f.name.as_str(),
                                pair.0.as_str(),
                                w.0.as_str(),
                                w.1,
                            );
                            self.add_to_count_of_all_word_in_class(
                                model_name,
                                f.name.as_str(),
                                pair.0.as_str(),
                                w.1,
                            );
                            proof {
                                assert(ps.subrange(0, l + 1 as int).drop_last() =~= ps.subrange(
                                    0,
                                    l as int,
                                ));
                                assert(ps.subrange(0, l + 1 as int).last() == ps[l as int]);
                            }
                            l = l + 1;
                        }
                        proof {
                            assert(ps.subrange(0, wn as int) =~= ps);
                        }
                    },
                    FeatureType::Category => {
                        let t = trim_value(f.value.as_str());
                        self.add_to_count_of_word_in_class(
                            model_name,
                            f.name.as_str(),
                            pair.0.as_str(),
                            t.as_str(),
                            1,
                        );
                        self.add_to_count_of_all_word_in_class(
                            model_name,
                            f.name.as_str(),
                            pair.0.as_str(),
                            1,
                        );
                    },
                    FeatureType::Gaussian => {},
                    FeatureType::GaussianStd => {},
                }
                proof {
                    assert(fs.subrange(0, j + 1 as int).drop_last() =~= fs.subrange(0, j as int));
                    assert(fs.subrange(0, j + 1 as int).last() == fs[j as int]);
                    assert(fs[j as int] == pair.1@[j as int]@);
                    assert(self.model_store@ == train_example(
                        base_i,
                        m,
                        stop,
                        pair.0@,
                        fs.subrange(0, j + 1 as int),
                    ));
                }
                j = j + 1;
            }
            proof {
                assert(fs.subrange(0, k as int) =~= fs);
                assert(es.subrange(0, i + 1 as int).drop_last() =~= es.subrange(0, i as int));
                assert(es.subrange(0, i + 1 as int).last() == es[i as int]);
                assert(es[i as int] == (pair.0@, pair.1.deep_view()));
            }
            i = i + 1;
        }
        proof {
            assert(es.subrange(0, n as int) =~= es);
        }
    }
}


// ---------------------------------------------------------------------------
// Prediction evidence
// ---------------------------------------------------------------------------

/// The four counts that feed one smoothed log-likelihood term of the
/// multinomial law: the token's count in the query, the token's trained
/// count in the class, the all-token count of the feature in the class,
/// and the feature's vocabulary size.
pub struct TermCounts {
    pub count_of_word: u64,
    pub count_of_word_in_class: u64,
    pub count_of_all_word_in_class: u64,
    pub count_of_unique_words_in_feature: u64,
}

/// The mathematical model of `TermCounts`.
pub struct TermModel {
    pub count_of_word: nat,
    pub count_of_word_in_class: nat,
    pub count_of_all_word_in_class: nat,
    pub count_of_unique_words_in_feature: nat,
}

impl View for TermCounts {
    type V = TermModel;

    open spec fn view(&self) -> TermModel {
        TermModel {
            count_of_word: self.count_of_word as nat,
            count_of_word_in_class: self.count_of_word_in_class as nat,
            count_of_all_word_in_class: self.count_of_all_word_in_class as nat,
            count_of_unique_words_in_feature: self.count_of_unique_words_in_feature as nat,
        }
    }
}

impl DeepView for TermCounts {
    type V = TermModel;

    open spec fn deep_view(&self) -> TermModel {
        self.view()
    }
}

/// The evidence one class accumulates over a feature list: the class
/// label, its prior count, and one term per known token.
pub struct ClassEvidence {
    pub class: String,
    pub priors_count: u64,
    pub terms: Vec<TermCounts>,
}

/// The mathematical model of `ClassEvidence`.
pub struct ClassEvidenceModel {
    pub class: Seq<char>,
    pub priors_count: nat,
    pub terms: Seq<TermModel>,
}

impl View for ClassEvidence {
    type V = ClassEvidenceModel;

    open spec fn view(&self) -> ClassEvidenceModel {
        ClassEvidenceModel {
            class: self.class@,
            priors_count: self.priors_count as nat,
            terms: self.terms.deep_view(),
        }
    }
}

impl DeepView for ClassEvidence {
    type V = ClassEvidenceModel;

    open spec fn deep_view(&self) -> ClassEvidenceModel {
        self.view()
    }
}

/// The term that token `t` with query count `n` contributes for class `c`
/// under feature `f`, read from the store.
pub open spec fn term_model(
    sm: StoreModel,
    m: Seq<char>,
    f: Seq<char>,
    c: Seq<char>,
    t: Seq<char>,
    n: nat,
) -> TermModel {
    TermModel {
        count_of_word: n,
        count_of_word_in_class: sm.word_count(m, f, c, t),
        count_of_all_word_in_class: sm.class_word_total(m, f, c),
        count_of_unique_words_in_feature: sm.vocab_size(m, f),
    }
}

/// The terms of a (token, count) list for class `c` under feature `f`:
/// one term per token the feature's vocabulary knows, in order.  A token
/// never seen under the feature contributes nothing at all.
pub open spec fn token_terms(
    sm: StoreModel,
    m: Seq<char>,
    f: Seq<char>,
    c: Seq<char>,
    ps: Seq<(Seq<char>, nat)>,
) -> Seq<TermModel>
    decreases ps.len(),
{
    if ps.len() == 0 {
        Seq::empty()
    } else {
        token_terms(sm, m, f, c, ps.drop_last()) + if sm.knows_word(m, f, ps.last().0) {
            seq![term_model(sm, m, f, c, ps.last().0, ps.last().1)]
        } else {
            Seq::empty()
        }
    }
}

/// The terms one feature contributes for class `c`: a text feature is
/// tokenized and counted, a categorical feature contributes its trimmed
/// value as one token with count 1 if it is known, and the Gaussian kinds
/// contribute no multinomial terms.
pub open spec fn feature_terms(
    sm: StoreModel,
    m: Seq<char>,
    stop: Set<Seq<char>>,
    c: Seq<char>,
    f: FeatureModel,
) -> Seq<TermModel> {
    match f.feature_type {
        FeatureType::Text => token_terms(sm, m, f.name, c, text_pairs(f.value, stop)),
        FeatureType::Category => if sm.knows_word(m, f.name, trim_spec(f.value)) {
            seq![term_model(sm, m, f.name, c, trim_spec(f.value), 1)]
        } else {
            Seq::empty()
        },
        FeatureType::Gaussian => Seq::empty(),
        FeatureType::GaussianStd => Seq::empty(),
    }
}

/// All terms a feature list contributes for class `c`, feature by feature.
pub open spec fn class_terms(
    sm: StoreModel,
    m: Seq<char>,
    stop: Set<Seq<char>>,
    c: Seq<char>,
    fs: Seq<FeatureModel>,
) -> Seq<TermModel>
    decreases fs.len(),
{
    if fs.len() == 0 {
        Seq::empty()
    } else {
        class_terms(sm, m, stop, c, fs.drop_last()) + feature_terms(sm, m, stop, c, fs.last())
    }
}

/// The full evidence of a query: for every class the model has seen, in
/// first-appearance order, its prior count and its terms.
pub open spec fn evidence_model(
    sm: StoreModel,
    m: Seq<char>,
    stop: Set<Seq<char>>,
    fs: Seq<FeatureModel>,
) -> Seq<ClassEvidenceModel> {
    Seq::new(
        sm.class_list(m).len(),
        |ci: int| ClassEvidenceModel {
            class: sm.class_list(m)[ci],
            priors_count: sm.prior_count(m, sm.class_list(m)[ci]),
            terms: class_terms(sm, m, stop, sm.class_list(m)[ci], fs),
        },
    )
}

proof fn lemma_deep_push<T: DeepView>(v1: Vec<T>, v2: Vec<T>, x: T)
    requires
        v2@ == v1@.push(x),
    ensures
        v2.deep_view() == v1.deep_view().push(x.deep_view()),
{
    assert forall|i: int| 0 <= i < v2.deep_view().len() implies v2.deep_view()[i]
        == v1.deep_view().push(x.deep_view())[i] by {
        if i < v1@.len() {
            assert(v2@[i] == v1@[i]);
        } else {
            assert(v2@[i] == x);
        }
    }
    assert(v2.deep_view() =~= v1.deep_view().push(x.deep_view()));
}

impl<T: ModelStore + Sync> Model<T> {
    /// Gather the exact integer inputs of the per-class log-likelihood
    /// computation for one query: the model's total data count, and for
    /// every class its prior count together with one smoothed term per
    /// known token.  Unknown tokens contribute nothing; a model never
    /// trained yields nothing at all.
    pub fn collect_evidence(&self, model_name: &str, features: &[Feature]) -> (r: Option<
        (u64, Vec<ClassEvidence>),
    >)
        requires
            self.wf(),
        ensures
            match r {
                Option::Some(te) => {
                    &&& self.model_store@.has_model(model_name@)
                    &&& te.0 as nat == self.model_store@.total_count(model_name@)
                    &&& te.1.deep_view() == evidence_model(
                        self.model_store@,
                        model_name@,
                        stop_set(self.stop_words),
                        features.deep_view(),
                    )
                },
                Option::None => !self.model_store@.has_model(model_name@),
            },
    {
        let ghost sm = self.model_store@;
        let ghost m = model_name@;
        let ghost stop = stop_set(self.stop_words);
        let ghost fsm = features.deep_view();
        let classes = match self.model_store.get_all_classes(model_name) {
            Option::Some(c) => c,
            Option::None => {
                return Option::None;
            },
        };
        let total = self.get_total_data_count(model_name);
        let cn = classes.len();
        let mut ev: Vec<ClassEvidence> = Vec::new();
        let mut ci: usize = 0;
        while ci < cn
            invariant
                cn == classes@.len(),
                0 <= ci <= cn,
                ev@.len() == ci,
                forall|x: int|
                    0 <= x < ci ==> (#[trigger] ev.deep_view()[x]) == evidence_model(
                        sm,
                        m,
                        stop,
                        fsm,
                    )[x],
            decreases cn - ci,
        {
            let class = &classes[ci];
            proof {
                assert(classes.deep_view()[ci as int] == class@);
                assert(sm.class_list(m)[ci as int] == class@);
            }
            let prior = self.get_priors_count_of_class(model_name, class.as_str());
            let mut terms: Vec<TermCounts> = Vec::new();
            proof {
                assert(fsm.subrange(0, 0) =~= Seq::empty());
            }
            let fcount = features.len();
            let mut fj: usize = 0;
            while fj < fcount
                invariant
                    fcount == features@.len(),
                    0 <= fj <= fcount,
                    terms.deep_view() == class_terms(sm, m, stop, class@, fsm.subrange(0, fj as int)),
                decreases fcount - fj,
            {
                let f = &features[fj];
                let ghost done = class_terms(sm, m, stop, class@, fsm.subrange(0, fj as int));
                match f.feature_type {
                    FeatureType::Text => {
                        let cleaned = clean_text(f.value.as_str());
                        let word_counts = count(cleaned.as_str(), &self.stop_words);
                        let ghost ps = pairs_model(word_counts@);
                        proof {
                            assert(ps == text_pairs(fsm[fj as int].value, stop));
                            assert(ps.subrange(0, 0) =~= Seq::empty());
                            assert(done + Seq::<TermModel>::empty() =~= done);
                        }
                        let v_count = self.get_count_of_unique_words_in_feature(
                            model_name,
                            f.name.as_str(),
                        );
                        let c_c = self.get_count_of_all_word_in_class(
                            model_name,
                            f.name.as_str(),
                            class.as_str(),
                        );
                        let wn = word_counts.len();
                        let mut l: usize = 0;
                        while l < wn
                            invariant
                                wn == word_counts@.len(),
                                0 <= l <= wn,
                                terms.deep_view() == done + token_terms(
                                    sm,
                                    m,
                                    fsm[fj as int].name,
                                    class@,
                                    ps.subrange(0, l as int),
                                ),
                            decreases wn - l,
                        {
                            let w = &word_counts[l];
                            let ghost donel = token_terms(
                                sm,
                                m,
                                fsm[fj as int].name,
                                class@,
                                ps.subrange(0, l as int),
                            );
                            proof {
                                assert(ps.subrange(0, l + 1 as int).drop_last() =~= ps.subrange(
                                    0,
                                    l as int,
                                ));
                                assert(ps.subrange(0, l + 1 as int).last() == ps[l as int]);
                                assert(ps[l as int].0 == w.0@ && ps[l as int].1 == w.1 as nat);
                            }
                            if self.is_word_appeared_in_feature(
                                model_name,
                                f.name.as_str(),
                                w.0.as_str(),
                            ) {
                                let c_f_c = self.get_count_of_word_in_class(
                                    model_name,
                                    f.name.as_str(),
                                    class.as_str(),
                                    w.0.as_str(),
                                );
                                let tc = TermCounts {
                                    count_of_word: w.1,
                                    count_of_word_in_class: c_f_c,
                                    count_of_all_word_in_class: c_c,
                                    count_of_unique_words_in_feature: v_count,
                                };
                                proof {
                                    assert(tc@ == term_model(
                                        sm,
                                        m,
                                        fsm[fj as int].name,
                                        class@,
                                        ps[l as int].0,
                                        ps[l as int].1,
                                    ));
                                }
                                let ghost tv0 = terms;
                                terms.push(tc);
                                proof {
                                    lemma_deep_push(tv0, terms, tc);
                                    assert(terms.deep_view() =~= done + (donel + seq![tc@]));
                                    assert(donel + seq![tc@] =~= token_terms(
                                        sm,
                                        m,
                                        fsm[fj as int].name,
                                        class@,
                                        ps.subrange(0, l + 1 as int),
                                    ));
                                }
                            } else {
                                proof {
                                    assert(donel + Seq::<TermModel>::empty() =~= donel);
                                }
                            }
                            l = l + 1;
                        }
                        proof {
                            assert(ps.subrange(0, wn as int) =~= ps);
                        }
                    },
                    FeatureType::Category => {
                        let t = trim_value(f.value.as_str());
                        if self.is_word_appeared_in_feature(model_name, f.name.as_str(), t.as_str())
                        {
                            let v_count = self.get_count_of_unique_words_in_feature(
                                model_name,
                                f.name.as_str(),
                            );
                            let c_c = self.get_count_of_all_word_in_class(
                                model_name,
                                f.name.as_str(),
                                class.as_str(),
                            );
                            let c_f_c = self.get_count_of_word_in_class(
                                model_name,
                                f.name.as_str(),
                                class.as_str(),
                                t.as_str(),
                            );
                            let tc = TermCounts {
                                count_of_word: 1,
                                count_of_word_in_class: c_f_c,
                                count_of_all_word_in_class: c_c,
                                count_of_unique_words_in_feature: v_count,
                            };
                            let ghost tv0 = terms;
                            terms.push(tc);
                            proof {
                                lemma_deep_push(tv0, terms, tc);
                                assert(terms.deep_view() =~= done + seq![tc@]);
                            }
                        } else {
                            proof {
                                assert(done + Seq::<TermModel>::empty() =~= done);
                            }
                        }
                    },
                    FeatureType::Gaussian => {
                        proof {
                            assert(done + Seq::<TermModel>::empty() =~= done);
                        }
                    },
                    FeatureType::GaussianStd => {
                        proof {
                            assert(done + Seq::<TermModel>::empty() =~= done);
                        }
                    },
                }
                proof {
                    assert(fsm.subrange(0, fj + 1 as int).drop_last() =~= fsm.subrange(
                        0,
                        fj as int,
                    ));
                    assert(fsm.subrange(0, fj + 1 as int).last() == fsm[fj as int]);
                    assert(fsm[fj as int] == features@[fj as int]@);
                    assert(terms.deep_view() == class_terms(
                        sm,
                        m,
                        stop,
                        class@,
                        fsm.subrange(0, fj + 1 as int),
                    ));
                }
                fj = fj + 1;
            }
            proof {
                assert(fsm.subrange(0, fcount as int) =~= fsm);
            }
            let entry = ClassEvidence { class: class.clone(), priors_count: prior, terms };
            let ghost ev0 = ev;
            ev.push(entry);
            proof {
                lemma_deep_push(ev0, ev, entry);
                assert(entry@ == evidence_model(sm, m, stop, fsm)[ci as int]);
                assert forall|x: int| 0 <= x < ci + 1 implies (#[trigger] ev.deep_view()[x])
                    == evidence_model(sm, m, stop, fsm)[x] by {
                    if x < ci {
                        assert(ev.deep_view()[x] == ev0.deep_view()[x]);
                    }
                }
            }
            ci = ci + 1;
        }
        proof {
            assert(ev.deep_view() =~= evidence_model(sm, m, stop, fsm));
        }
        Option::Some((total, ev))
    }
}

} // verus!
