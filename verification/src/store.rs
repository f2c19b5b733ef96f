use vstd::prelude::*;

verus! {

// ---------------------------------------------------------------------------
// Keys and the mathematical model of the store
// ---------------------------------------------------------------------------

/// Which counter family a key addresses.  Every family is keyed by a model
/// name; the finer families also use the feature, class and word parts of
/// the key, and leave the unused parts empty.
#[derive(Clone, Copy, Debug, PartialEq, Eq, Structural)]
pub enum CounterKind {
    /// The number of feature instances trained into a model.
    TotalData,
    /// The number of feature instances attributed to one class.
    ClassPrior,
    /// The accumulated count of one token under one feature for one class.
    WordInClass,
    /// The accumulated count of all tokens under one feature for one class.
    ClassWordTotal,
}

/// A counter address: the kind together with the model, feature, class and
/// word parts, unused parts empty.
pub type CounterKey = (CounterKind, Seq<char>, Seq<char>, Seq<char>, Seq<char>);

/// The mathematical content of a statistics store: the counters, the
/// classes seen per model, and the vocabulary seen per model and feature.
/// Lists keep first-appearance order and never list an element twice.
pub struct StoreModel {
    /// Every counter ever written, by address.
    pub counters: Map<CounterKey, nat>,
    /// For each model name, the distinct class labels seen.
    pub classes: Map<Seq<char>, Seq<Seq<char>>>,
    /// For each model name and feature name, the distinct tokens seen.
    pub vocab: Map<(Seq<char>, Seq<char>), Seq<Seq<char>>>,
}

/// Addition that saturates at the largest value a stored counter can hold.
pub open spec fn sat_add(a: nat, b: nat) -> nat {
    if a + b <= u64::MAX {
        a + b
    } else {
        u64::MAX as nat
    }
}

/// The counter address of a model's total-data count.
pub open spec fn total_key(m: Seq<char>) -> CounterKey {
    (CounterKind::TotalData, m, Seq::empty(), Seq::empty(), Seq::empty())
}

/// The counter address of a class's prior count.
pub open spec fn prior_key(m: Seq<char>, c: Seq<char>) -> CounterKey {
    (CounterKind::ClassPrior, m, Seq::empty(), c, Seq::empty())
}

/// The counter address of a token's count under a feature for a class.
pub open spec fn word_key(m: Seq<char>, f: Seq<char>, c: Seq<char>, w: Seq<char>) -> CounterKey {
    (CounterKind::WordInClass, m, f, c, w)
}

/// The counter address of the all-token count of a feature for a class.
pub open spec fn class_total_key(m: Seq<char>, f: Seq<char>, c: Seq<char>) -> CounterKey {
    (CounterKind::ClassWordTotal, m, f, c, Seq::empty())
}

impl StoreModel {
    /// The store holding nothing at all.
    pub open spec fn init() -> StoreModel {
        StoreModel { counters: Map::empty(), classes: Map::empty(), vocab: Map::empty() }
    }

    /// The store with `v` added (saturating) onto the counter at `k`.
    pub open spec fn bump(self, k: CounterKey, v: nat) -> StoreModel {
        StoreModel {
            counters: self.counters.insert(k, sat_add(self.counter(k), v)),
            classes: self.classes,
            vocab: self.vocab,
        }
    }

    /// The store with class `c` recorded for model `m`: its class list
    /// grows by `c` exactly when `c` was not present yet.
    pub open spec fn with_class(self, m: Seq<char>, c: Seq<char>) -> StoreModel {
        StoreModel {
            counters: self.counters,
            classes: self.classes.insert(
                m,
                if self.class_list(m).contains(c) {
                    self.class_list(m)
                } else {
                    self.class_list(m).push(c)
                },
            ),
            vocab: self.vocab,
        }
    }

    /// The store with token `w` recorded in the vocabulary of feature `f`
    /// of model `m`: the vocabulary grows by `w` exactly when `w` was not
    /// present yet.
    pub open spec fn with_word(self, m: Seq<char>, f: Seq<char>, w: Seq<char>) -> StoreModel {
        StoreModel {
            counters: self.counters,
            classes: self.classes,
            vocab: self.vocab.insert(
                (m, f),
                if self.knows_word(m, f, w) {
                    self.vocab_list(m, f)
                } else {
                    self.vocab_list(m, f).push(w)
                },
            ),
        }
    }

    /// The value of a counter; a counter never written reads as zero.
    pub open spec fn counter(self, k: CounterKey) -> nat {
        if self.counters.contains_key(k) {
            self.counters[k]
        } else {
            0
        }
    }

    /// The total number of feature instances trained into model `m`.
    pub open spec fn total_count(self, m: Seq<char>) -> nat {
        self.counter(total_key(m))
    }

    /// The number of feature instances attributed to class `c` of model `m`.
    pub open spec fn prior_count(self, m: Seq<char>, c: Seq<char>) -> nat {
        self.counter(prior_key(m, c))
    }

    /// The accumulated count of token `w` under feature `f` for class `c`.
    pub open spec fn word_count(self, m: Seq<char>, f: Seq<char>, c: Seq<char>, w: Seq<char>) -> nat {
        self.counter(word_key(m, f, c, w))
    }

    /// The accumulated count of all tokens under feature `f` for class `c`.
    pub open spec fn class_word_total(self, m: Seq<char>, f: Seq<char>, c: Seq<char>) -> nat {
        self.counter(class_total_key(m, f, c))
    }

    /// Whether model `m` has ever seen a class.
    pub open spec fn has_model(self, m: Seq<char>) -> bool {
        self.classes.contains_key(m)
    }

    /// The distinct classes of model `m` in order of first appearance.
    pub open spec fn class_list(self, m: Seq<char>) -> Seq<Seq<char>> {
        if self.classes.contains_key(m) {
            self.classes[m]
        } else {
            Seq::empty()
        }
    }

    /// The distinct tokens ever seen under feature `f` of model `m`, in
    /// order of first appearance.
    pub open spec fn vocab_list(self, m: Seq<char>, f: Seq<char>) -> Seq<Seq<char>> {
        if self.vocab.contains_key((m, f)) {
            self.vocab[(m, f)]
        } else {
            Seq::empty()
        }
    }

    /// The number of distinct tokens ever seen under feature `f`: the
    /// smoothing vocabulary size.
    pub open spec fn vocab_size(self, m: Seq<char>, f: Seq<char>) -> nat {
        self.vocab_list(m, f).len()
    }

    /// Whether token `w` has ever been seen under feature `f` of model `m`.
    pub open spec fn knows_word(self, m: Seq<char>, f: Seq<char>, w: Seq<char>) -> bool {
        self.vocab_list(m, f).contains(w)
    }
}

// ---------------------------------------------------------------------------
// The store interface
// ---------------------------------------------------------------------------

/// The statistics store that the engine accumulates into and predicts
/// from: keyed counters, class lists and vocabularies, all addressed
/// first by an opaque model name.  Absent keys read as zero or empty, and
/// nothing is ever removed.  Every implementation carries an invariant
/// `inv` that its constructors establish and its operations preserve, and
/// is abstracted by a `StoreModel` through its view.
pub trait ModelStore: View<V = StoreModel> + Sized {
    /// The implementation's internal invariant.
    spec fn inv(&self) -> bool;

    /// Add `v` to a counter, creating it at zero first if it was never
    /// written; the counter saturates instead of overflowing.  Returns
    /// the new value.
    fn map_add(
        &mut self,
        model: &str,
        kind: CounterKind,
        feature: &str,
        class: &str,
        word: &str,
        v: u64,
    ) -> (r: u64)
        requires
            old(self).inv(),
        ensures
            final(self).inv(),
            final(self)@ == old(self)@.bump((kind, model@, feature@, class@, word@), v as nat),
            r as nat == sat_add(old(self)@.counter((kind, model@, feature@, class@, word@)), v as nat),
    ;

    /// Read a counter; a counter never written reads as zero.
    fn map_get(
        &self,
        model: &str,
        kind: CounterKind,
        feature: &str,
        class: &str,
        word: &str,
    ) -> (r: u64)
        requires
            self.inv(),
        ensures
            r as nat == self@.counter((kind, model@, feature@, class@, word@)),
    ;

    /// Record that model `model` has seen class `class`; the class list of
    /// the model grows by the class exactly when it was not present yet.
    fn save_class(&mut self, model: &str, class: &str)
        requires
            old(self).inv(),
        ensures
            final(self).inv(),
            final(self)@ == old(self)@.with_class(model@, class@),
    ;

    /// The distinct classes that `model` has seen, or nothing if the model
    /// was never trained.
    fn get_all_classes<'a>(&'a self, model: &str) -> (r: Option<&'a Vec<String>>)
        requires
            self.inv(),
        ensures
            match r {
                Option::Some(v) => self@.has_model(model@) && v.deep_view() == self@.class_list(
                    model@,
                ),
                Option::None => !self@.has_model(model@),
            },
    ;

    /// Record token `word` in the vocabulary of feature `feature` of model
    /// `model`; the vocabulary grows by the token exactly when it was not
    /// present yet.
    fn vocab_add(&mut self, model: &str, feature: &str, word: &str)
        requires
            old(self).inv(),
        ensures
            final(self).inv(),
            final(self)@ == old(self)@.with_word(model@, feature@, word@),
    ;

    /// Whether `word` has ever been recorded under `feature` of `model`.
    fn vocab_contains(&self, model: &str, feature: &str, word: &str) -> (b: bool)
        requires
            self.inv(),
        ensures
            b == self@.knows_word(model@, feature@, word@),
    ;

    /// The number of distinct tokens recorded under `feature` of `model`.
    fn vocab_size(&self, model: &str, feature: &str) -> (r: u64)
        requires
            self.inv(),
        ensures
            r as nat == self@.vocab_size(model@, feature@),
    ;
}

// ---------------------------------------------------------------------------
// The in-memory store
// ---------------------------------------------------------------------------

struct CounterEntry {
    kind: CounterKind,
    model: String,
    feature: String,
    class: String,
    word: String,
    value: u64,
}

struct ClassesEntry {
    model: String,
    classes: Vec<String>,
}

struct VocabEntry {
    model: String,
    feature: String,
    words: Vec<String>,
}

/// An in-memory statistics store: flat counter entries with composite
/// keys, plus the class lists and vocabularies.  Absent keys read as zero
/// or empty, and nothing is ever removed.
pub struct ModelHashMapStore {
    map: Vec<CounterEntry>,
    class_map: Vec<ClassesEntry>,
    vocab_map: Vec<VocabEntry>,
}

spec fn entry_key(e: CounterEntry) -> CounterKey {
    (e.kind, e.model@, e.feature@, e.class@, e.word@)
}

spec fn counters_of(s: Seq<CounterEntry>) -> Map<CounterKey, nat>
    decreases s.len(),
{
    if s.len() == 0 {
        Map::empty()
    } else {
        counters_of(s.drop_last()).insert(entry_key(s.last()), s.last().value as nat)
    }
}

spec fn classes_of(s: Seq<ClassesEntry>) -> Map<Seq<char>, Seq<Seq<char>>>
    decreases s.len(),
{
    if s.len() == 0 {
        Map::empty()
    } else {
        classes_of(s.drop_last()).insert(s.last().model@, s.last().classes.deep_view())
    }
}

spec fn vocab_of(s: Seq<VocabEntry>) -> Map<(Seq<char>, Seq<char>), Seq<Seq<char>>>
    decreases s.len(),
{
    if s.len() == 0 {
        Map::empty()
    } else {
        vocab_of(s.drop_last()).insert(
            (s.last().model@, s.last().feature@),
            s.last().words.deep_view(),
        )
    }
}

/// No two strings of the list read the same.
spec fn strings_distinct(v: Seq<String>) -> bool {
    forall|i: int, j: int| #![trigger v[i], v[j]] 0 <= i < j < v.len() ==> v[i]@ != v[j]@
}

spec fn counters_distinct(s: Seq<CounterEntry>) -> bool {
    forall|i: int, j: int|
        #![trigger s[i], s[j]]
        0 <= i < j < s.len() ==> entry_key(s[i]) != entry_key(s[j])
}

spec fn classes_distinct(s: Seq<ClassesEntry>) -> bool {
    &&& forall|i: int, j: int|
        #![trigger s[i], s[j]]
        0 <= i < j < s.len() ==> s[i].model@ != s[j].model@
    &&& forall|i: int| 0 <= i < s.len() ==> strings_distinct((#[trigger] s[i]).classes@)
}

spec fn vocab_distinct(s: Seq<VocabEntry>) -> bool {
    &&& forall|i: int, j: int|
        #![trigger s[i], s[j]]
        0 <= i < j < s.len() ==> (s[i].model@, s[i].feature@) != (s[j].model@, s[j].feature@)
    &&& forall|i: int| 0 <= i < s.len() ==> strings_distinct((#[trigger] s[i]).words@)
}

impl View for ModelHashMapStore {
    type V = StoreModel;

    closed spec fn view(&self) -> StoreModel {
        StoreModel {
            counters: counters_of(self.map@),
            classes: classes_of(self.class_map@),
            vocab: vocab_of(self.vocab_map@),
        }
    }
}

impl ModelHashMapStore {
    /// The store's internal invariant: every key list is duplicate-free.
    /// Constructors establish it and every operation preserves it.
    pub closed spec fn wf(self) -> bool {
        &&& counters_distinct(self.map@)
        &&& classes_distinct(self.class_map@)
        &&& vocab_distinct(self.vocab_map@)
    }

    /// A store holding nothing at all.
    pub fn new() -> (s: Self)
        ensures
            s@ == StoreModel::init(),
            s.wf(),
    {
        let s = ModelHashMapStore { map: Vec::new(), class_map: Vec::new(), vocab_map: Vec::new() };
        proof {
            assert(s@.counters =~= Map::empty());
            assert(s@.classes =~= Map::<Seq<char>, Seq<Seq<char>>>::empty());
            assert(s@.vocab =~= Map::<(Seq<char>, Seq<char>), Seq<Seq<char>>>::empty());
        }
        s
    }
}

// ---------------------------------------------------------------------------
// How a distinct entry list reads as a map
// ---------------------------------------------------------------------------

proof fn lemma_counters_char(s: Seq<CounterEntry>)
    requires
        counters_distinct(s),
    ensures
        forall|k: CounterKey| #[trigger]
            counters_of(s).contains_key(k) <==> exists|i: int|
                0 <= i < s.len() && entry_key(#[trigger] s[i]) == k,
        forall|i: int|
            0 <= i < s.len() ==> counters_of(s).contains_key(entry_key(#[trigger] s[i]))
                && counters_of(s)[entry_key(s[i])] == s[i].value as nat,
    decreases s.len(),
{
    if s.len() > 0 {
        lemma_counters_char(s.drop_last());
        assert forall|i: int| 0 <= i < s.len() implies counters_of(s).contains_key(
            entry_key(#[trigger] s[i]),
        ) && counters_of(s)[entry_key(s[i])] == s[i].value as nat by {
            if i < s.len() - 1 {
                assert(s.drop_last()[i] == s[i]);
                assert(entry_key(s[i]) != entry_key(s[s.len() - 1]));
            }
        }
        assert forall|k: CounterKey| #[trigger]
            counters_of(s).contains_key(k) implies exists|i: int|
            0 <= i < s.len() && entry_key(#[trigger] s[i]) == k by {
            if k != entry_key(s.last()) {
                let i = choose|i: int|
                    0 <= i < s.drop_last().len() && entry_key(#[trigger] s.drop_last()[i]) == k;
                assert(s.drop_last()[i] == s[i]);
            } else {
                assert(entry_key(s[s.len() - 1]) == k);
            }
        }
        assert forall|k: CounterKey|
            exists|i: int| 0 <= i < s.len() && entry_key(#[trigger] s[i]) == k implies #[trigger]
            counters_of(s).contains_key(k) by {}
    }
}

proof fn lemma_counters_update(s: Seq<CounterEntry>, i: int, e: CounterEntry)
    requires
        counters_distinct(s),
        0 <= i < s.len(),
        entry_key(e) == entry_key(s[i]),
    ensures
        counters_distinct(s.update(i, e)),
        counters_of(s.update(i, e)) == counters_of(s).insert(entry_key(e), e.value as nat),
    decreases s.len(),
{
    let s2 = s.update(i, e);
    assert forall|a: int, b: int|
        #![trigger s2[a], s2[b]]
        0 <= a < b < s2.len() implies entry_key(s2[a]) != entry_key(s2[b]) by {
        assert(entry_key(s2[a]) == entry_key(s[a]) && entry_key(s2[b]) == entry_key(s[b]));
    }
    if i == s.len() - 1 {
        assert(s2.drop_last() =~= s.drop_last());
        assert(counters_of(s2) =~= counters_of(s).insert(entry_key(e), e.value as nat));
    } else {
        assert(s2.drop_last() =~= s.drop_last().update(i, e));
        assert(s2.last() == s.last());
        lemma_counters_update(s.drop_last(), i, e);
        assert(entry_key(e) != entry_key(s.last()));
        assert(counters_of(s2) =~= counters_of(s).insert(entry_key(e), e.value as nat));
    }
}

proof fn lemma_counters_push(s: Seq<CounterEntry>, e: CounterEntry)
    requires
        counters_distinct(s),
        forall|j: int| 0 <= j < s.len() ==> entry_key(#[trigger] s[j]) != entry_key(e),
    ensures
        counters_distinct(s.push(e)),
        counters_of(s.push(e)) == counters_of(s).insert(entry_key(e), e.value as nat),
{
    let s2 = s.push(e);
    assert forall|a: int, b: int|
        #![trigger s2[a], s2[b]]
        0 <= a < b < s2.len() implies entry_key(s2[a]) != entry_key(s2[b]) by {
        if b < s2.len() - 1 {
            assert(s2[a] == s[a] && s2[b] == s[b]);
        } else {
            assert(s2[a] == s[a] && s2[b] == e);
        }
    }
    assert(s2.drop_last() =~= s);
    assert(s2.last() == e);
}

// ---------------------------------------------------------------------------
// How a distinct class-entry list reads as a map
// ---------------------------------------------------------------------------

fn contains_string(v: &Vec<String>, t: &String) -> (b: bool)
    ensures
        b == v.deep_view().contains(t@),
{
    let n = v.len();
    let mut k: usize = 0;
    while k < n
        invariant
            n == v@.len(),
            0 <= k <= n,
            forall|j: int| 0 <= j < k ==> (#[trigger] v@[j])@ != t@,
        decreases n - k,
    {
        if v[k] == *t {
            proof {
                assert(v.deep_view()[k as int] == t@);
            }
            return true;
        }
        k = k + 1;
    }
    proof {
        if v.deep_view().contains(t@) {
            let j = choose|j: int| 0 <= j < v.deep_view().len() && v.deep_view()[j] == t@;
            assert(v@[j]@ == t@);
            assert(false);
        }
    }
    false
}

proof fn lemma_classes_char(s: Seq<ClassesEntry>)
    requires
        classes_distinct(s),
    ensures
        forall|k: Seq<char>| #[trigger]
            classes_of(s).contains_key(k) <==> exists|i: int|
                0 <= i < s.len() && (#[trigger] s[i]).model@ == k,
        forall|i: int|
            0 <= i < s.len() ==> classes_of(s).contains_key((#[trigger] s[i]).model@)
                && classes_of(s)[s[i].model@] == s[i].classes.deep_view(),
    decreases s.len(),
{
    if s.len() > 0 {
        lemma_classes_char(s.drop_last());
        assert forall|i: int| 0 <= i < s.len() implies classes_of(s).contains_key(
            (#[trigger] s[i]).model@,
        ) && classes_of(s)[s[i].model@] == s[i].classes.deep_view() by {
            if i < s.len() - 1 {
                assert(s.drop_last()[i] == s[i]);
                assert(s[i].model@ != s[s.len() - 1].model@);
            }
        }
        assert forall|k: Seq<char>| #[trigger]
            classes_of(s).contains_key(k) implies exists|i: int|
            0 <= i < s.len() && (#[trigger] s[i]).model@ == k by {
            if k != s.last().model@ {
                assert(classes_of(s.drop_last()).contains_key(k));
                let i = choose|i: int|
                    0 <= i < s.drop_last().len() && (#[trigger] s.drop_last()[i]).model@ == k;
                assert(s.drop_last()[i] == s[i]);
            } else {
                assert(s[s.len() - 1].model@ == k);
            }
        }
    }
}

proof fn lemma_classes_update(s: Seq<ClassesEntry>, i: int, e: ClassesEntry)
    requires
        classes_distinct(s),
        0 <= i < s.len(),
        e.model@ == s[i].model@,
        strings_distinct(e.classes@),
    ensures
        classes_distinct(s.update(i, e)),
        classes_of(s.update(i, e)) == classes_of(s).insert(e.model@, e.classes.deep_view()),
    decreases s.len(),
{
    let s2 = s.update(i, e);
    assert forall|a: int, b: int|
        #![trigger s2[a], s2[b]]
        0 <= a < b < s2.len() implies s2[a].model@ != s2[b].model@ by {
        assert(s2[a].model@ == s[a].model@ && s2[b].model@ == s[b].model@);
    }
    assert forall|a: int| 0 <= a < s2.len() implies strings_distinct(
        (#[trigger] s2[a]).classes@,
    ) by {
        if a != i {
            assert(s2[a] == s[a]);
        }
    }
    if i == s.len() - 1 {
        assert(s2.drop_last() =~= s.drop_last());
        assert(classes_of(s2) =~= classes_of(s).insert(e.model@, e.classes.deep_view()));
    } else {
        assert(s2.drop_last() =~= s.drop_last().update(i, e));
        assert(s2.last() == s.last());
        lemma_classes_update(s.drop_last(), i, e);
        assert(e.model@ != s.last().model@);
        assert(classes_of(s2) =~= classes_of(s).insert(e.model@, e.classes.deep_view()));
    }
}

proof fn lemma_classes_push(s: Seq<ClassesEntry>, e: ClassesEntry)
    requires
        classes_distinct(s),
        forall|j: int| 0 <= j < s.len() ==> (#[trigger] s[j]).model@ != e.model@,
        strings_distinct(e.classes@),
    ensures
        classes_distinct(s.push(e)),
        classes_of(s.push(e)) == classes_of(s).insert(e.model@, e.classes.deep_view()),
{
    let s2 = s.push(e);
    assert forall|a: int, b: int|
        #![trigger s2[a], s2[b]]
        0 <= a < b < s2.len() implies s2[a].model@ != s2[b].model@ by {
        if b < s2.len() - 1 {
            assert(s2[a] == s[a] && s2[b] == s[b]);
        } else {
            assert(s2[a] == s[a] && s2[b] == e);
        }
    }
    assert forall|a: int| 0 <= a < s2.len() implies strings_distinct(
        (#[trigger] s2[a]).classes@,
    ) by {
        if a < s2.len() - 1 {
            assert(s2[a] == s[a]);
        } else {
            assert(s2[a] == e);
        }
    }
    assert(s2.drop_last() =~= s);
    assert(s2.last() == e);
}



// ---------------------------------------------------------------------------
// How a distinct vocabulary-entry list reads as a map
// ---------------------------------------------------------------------------

proof fn lemma_vocab_char(s: Seq<VocabEntry>)
    requires
        vocab_distinct(s),
    ensures
        forall|k: (Seq<char>, Seq<char>)| #[trigger]
            vocab_of(s).contains_key(k) <==> exists|i: int|
                0 <= i < s.len() && ((#[trigger] s[i]).model@, s[i].feature@) == k,
        forall|i: int|
            0 <= i < s.len() ==> vocab_of(s).contains_key(
                ((#[trigger] s[i]).model@, s[i].feature@),
            ) && vocab_of(s)[(s[i].model@, s[i].feature@)] == s[i].words.deep_view(),
    decreases s.len(),
{
    if s.len() > 0 {
        lemma_vocab_char(s.drop_last());
        assert forall|i: int| 0 <= i < s.len() implies vocab_of(s).contains_key(
            ((#[trigger] s[i]).model@, s[i].feature@),
        ) && vocab_of(s)[(s[i].model@, s[i].feature@)] == s[i].words.deep_view() by {
            if i < s.len() - 1 {
                assert(s.drop_last()[i] == s[i]);
                assert((s[i].model@, s[i].feature@) != (s[s.len() - 1].model@, s[s.len() - 1].feature@));
            }
        }
        assert forall|k: (Seq<char>, Seq<char>)| #[trigger]
            vocab_of(s).contains_key(k) implies exists|i: int|
            0 <= i < s.len() && ((#[trigger] s[i]).model@, s[i].feature@) == k by {
            if k != (s.last().model@, s.last().feature@) {
                assert(vocab_of(s.drop_last()).contains_key(k));
                let i = choose|i: int|
                    0 <= i < s.drop_last().len() && ((#[trigger] s.drop_last()[i]).model@, s.drop_last()[i].feature@) == k;
                assert(s.drop_last()[i] == s[i]);
            } else {
                assert((s[s.len() - 1].model@, s[s.len() - 1].feature@) == k);
            }
        }
    }
}

proof fn lemma_vocab_update(s: Seq<VocabEntry>, i: int, e: VocabEntry)
    requires
        vocab_distinct(s),
        0 <= i < s.len(),
        e.model@ == s[i].model@,
        e.feature@ == s[i].feature@,
        strings_distinct(e.words@),
    ensures
        vocab_distinct(s.update(i, e)),
        vocab_of(s.update(i, e)) == vocab_of(s).insert((e.model@, e.feature@), e.words.deep_view()),
    decreases s.len(),
{
    let s2 = s.update(i, e);
    assert forall|a: int, b: int|
        #![trigger s2[a], s2[b]]
        0 <= a < b < s2.len() implies (s2[a].model@, s2[a].feature@) != (
            s2[b].model@,
            s2[b].feature@,
        ) by {
        assert((s2[a].model@, s2[a].feature@) == (s[a].model@, s[a].feature@));
        assert((s2[b].model@, s2[b].feature@) == (s[b].model@, s[b].feature@));
    }
    assert forall|a: int| 0 <= a < s2.len() implies strings_distinct((#[trigger] s2[a]).words@) by {
        if a != i {
            assert(s2[a] == s[a]);
        }
    }
    if i == s.len() - 1 {
        assert(s2.drop_last() =~= s.drop_last());
        assert(vocab_of(s2) =~= vocab_of(s).insert((e.model@, e.feature@), e.words.deep_view()));
    } else {
        assert(s2.drop_last() =~= s.drop_last().update(i, e));
        assert(s2.last() == s.last());
        lemma_vocab_update(s.drop_last(), i, e);
        assert((e.model@, e.feature@) != (s.last().model@, s.last().feature@));
        assert(vocab_of(s2) =~= vocab_of(s).insert((e.model@, e.feature@), e.words.deep_view()));
    }
}

proof fn lemma_vocab_push(s: Seq<VocabEntry>, e: VocabEntry)
    requires
        vocab_distinct(s),
        forall|j: int|
            0 <= j < s.len() ==> ((#[trigger] s[j]).model@, s[j].feature@) != (
                e.model@,
                e.feature@,
            ),
        strings_distinct(e.words@),
    ensures
        vocab_distinct(s.push(e)),
        vocab_of(s.push(e)) == vocab_of(s).insert((e.model@, e.feature@), e.words.deep_view()),
{
    let s2 = s.push(e);
    assert forall|a: int, b: int|
        #![trigger s2[a], s2[b]]
        0 <= a < b < s2.len() implies (s2[a].model@, s2[a].feature@) != (
            s2[b].model@,
            s2[b].feature@,
        ) by {
        if b < s2.len() - 1 {
            assert(s2[a] == s[a] && s2[b] == s[b]);
        } else {
            assert(s2[a] == s[a] && s2[b] == e);
        }
    }
    assert forall|a: int| 0 <= a < s2.len() implies strings_distinct((#[trigger] s2[a]).words@) by {
        if a < s2.len() - 1 {
            assert(s2[a] == s[a]);
        } else {
            assert(s2[a] == e);
        }
    }
    assert(s2.drop_last() =~= s);
    assert(s2.last() == e);
}

// ---------------------------------------------------------------------------
// The in-memory store as a statistics store
// ---------------------------------------------------------------------------

impl ModelStore for ModelHashMapStore {
    open spec fn inv(&self) -> bool {
        self.wf()
    }

    fn map_get(
        &self,
        model: &str,
        kind: CounterKind,
        feature: &str,
        class: &str,
        word: &str,
    ) -> (r: u64) {
        proof {
            lemma_counters_char(self.map@);
        }
        let ghost key: CounterKey = (kind, model@, feature@, class@, word@);
        let m = model.to_owned();
        let f = feature.to_owned();
        let c = class.to_owned();
        let w = word.to_owned();
        let n = self.map.len();
        let mut i: usize = 0;
        while i < n
            invariant
                n == self.map@.len(),
                0 <= i <= n,
                forall|j: int| 0 <= j < i ==> entry_key(#[trigger] self.map@[j]) != key,
            decreases n - i,
        {
            let e = &self.map[i];
            if e.kind == kind && e.model == m && e.feature == f && e.class == c && e.word == w {
                proof {
                    assert(entry_key(self.map@[i as int]) == key);
                }
                return e.value;
            }
            i = i + 1;
        }
        proof {
            if self@.counters.contains_key(key) {
                let j = choose|j: int|
                    0 <= j < self.map@.len() && entry_key(#[trigger] self.map@[j]) == key;
                assert(false);
            }
        }
        0
    }

    fn map_add(
        &mut self,
        model: &str,
        kind: CounterKind,
        feature: &str,
        class: &str,
        word: &str,
        v: u64,
    ) -> (r: u64) {
        proof {
            lemma_counters_char(self.map@);
        }
        let ghost key: CounterKey = (kind, model@, feature@, class@, word@);
        let m = model.to_owned();
        let f = feature.to_owned();
        let c = class.to_owned();
        let w = word.to_owned();
        let n = self.map.len();
        let mut i: usize = 0;
        while i < n
            invariant
                self == old(self),
                n == self.map@.len(),
                0 <= i <= n,
                forall|j: int| 0 <= j < i ==> entry_key(#[trigger] self.map@[j]) != key,
            decreases n - i,
        {
            let e = &self.map[i];
            if e.kind == kind && e.model == m && e.feature == f && e.class == c && e.word == w {
                let newv = e.value.saturating_add(v);
                proof {
                    assert(entry_key(self.map@[i as int]) == key);
                    assert(self@.counter(key) == self.map@[i as int].value as nat);
                }
                let entry = CounterEntry { kind, model: m, feature: f, class: c, word: w, value: newv };
                proof {
                    lemma_counters_update(self.map@, i as int, entry);
                }
                self.map.set(i, entry);
                return newv;
            }
            i = i + 1;
        }
        proof {
            if self@.counters.contains_key(key) {
                let j = choose|j: int|
                    0 <= j < self.map@.len() && entry_key(#[trigger] self.map@[j]) == key;
                assert(false);
            }
            assert(self@.counter(key) == 0);
        }
        let entry = CounterEntry { kind, model: m, feature: f, class: c, word: w, value: v };
        proof {
            lemma_counters_push(self.map@, entry);
        }
        self.map.push(entry);
        v
    }

    fn save_class(&mut self, model: &str, class: &str) {
        proof {
            lemma_classes_char(self.class_map@);
        }
        let m = model.to_owned();
        let c = class.to_owned();
        let n = self.class_map.len();
        let mut i: usize = 0;
        while i < n
            invariant
                self == old(self),
                n == self.class_map@.len(),
                0 <= i <= n,
                forall|j: int| 0 <= j < i ==> (#[trigger] self.class_map@[j]).model@ != model@,
            decreases n - i,
        {
            if self.class_map[i].model == m {
                let ghost olds = self.class_map@;
                let ghost oldlist = self.class_map@[i as int].classes.deep_view();
                let mut entry = self.class_map.remove(i);
                let present = contains_string(&entry.classes, &c);
                if !present {
                    entry.classes.push(c);
                }
                proof {
                    if !present {
                        assert(entry.classes.deep_view() =~= oldlist.push(class@));
                    } else {
                        assert(entry.classes.deep_view() =~= oldlist);
                    }
                    assert forall|a: int, b: int|
                        #![trigger entry.classes@[a], entry.classes@[b]]
                        0 <= a < b < entry.classes@.len() implies entry.classes@[a]@
                        != entry.classes@[b]@ by {
                        assert(strings_distinct(olds[i as int].classes@));
                        if b < entry.classes@.len() - 1 || present {
                            assert(entry.classes@[a]@ == olds[i as int].classes@[a]@);
                            assert(entry.classes@[b]@ == olds[i as int].classes@[b]@);
                        } else {
                            assert(entry.classes@[a]@ == oldlist[a]);
                            assert(!oldlist.contains(class@));
                        }
                    }
                }
                self.class_map.insert(i, entry);
                proof {
                    assert(self.class_map@ =~= olds.update(i as int, self.class_map@[i as int]));
                    lemma_classes_update(olds, i as int, self.class_map@[i as int]);
                    assert(old(self)@.class_list(model@) == oldlist);
                }
                return ;
            }
            i = i + 1;
        }
        proof {
            if self@.classes.contains_key(model@) {
                let j = choose|j: int|
                    0 <= j < self.class_map@.len() && (#[trigger] self.class_map@[j]).model@
                        == model@;
                assert(false);
            }
            assert(old(self)@.class_list(model@) =~= Seq::<Seq<char>>::empty());
        }
        let mut list: Vec<String> = Vec::new();
        list.push(c);
        let entry = ClassesEntry { model: m, classes: list };
        proof {
            lemma_classes_push(self.class_map@, entry);
        }
        self.class_map.push(entry);
        proof {
            assert(self@.classes[model@] =~= old(self)@.class_list(model@).push(class@));
            assert(self@.classes =~= old(self)@.classes.insert(
                model@,
                old(self)@.class_list(model@).push(class@),
            ));
        }
    }

    fn get_all_classes<'a>(&'a self, model: &str) -> (r: Option<&'a Vec<String>>) {
        proof {
            lemma_classes_char(self.class_map@);
        }
        let m = model.to_owned();
        let n = self.class_map.len();
        let mut i: usize = 0;
        while i < n
            invariant
                n == self.class_map@.len(),
                0 <= i <= n,
                forall|j: int| 0 <= j < i ==> (#[trigger] self.class_map@[j]).model@ != model@,
            decreases n - i,
        {
            if self.class_map[i].model == m {
                return Option::Some(&self.class_map[i].classes);
            }
            i = i + 1;
        }
        proof {
            if self@.classes.contains_key(model@) {
                let j = choose|j: int|
                    0 <= j < self.class_map@.len() && (#[trigger] self.class_map@[j]).model@
                        == model@;
                assert(false);
            }
        }
        Option::None
    }

    fn vocab_add(&mut self, model: &str, feature: &str, word: &str) {
        proof {
            lemma_vocab_char(self.vocab_map@);
        }
        let m = model.to_owned();
        let f = feature.to_owned();
        let w = word.to_owned();
        let n = self.vocab_map.len();
        let mut i: usize = 0;
        while i < n
            invariant
                self == old(self),
                n == self.vocab_map@.len(),
                0 <= i <= n,
                forall|j: int|
                    0 <= j < i ==> ((#[trigger] self.vocab_map@[j]).model@,
                    self.vocab_map@[j].feature@) != (model@, feature@),
            decreases n - i,
        {
            if self.vocab_map[i].model == m && self.vocab_map[i].feature == f {
                let ghost olds = self.vocab_map@;
                let ghost oldlist = self.vocab_map@[i as int].words.deep_view();
                let mut entry = self.vocab_map.remove(i);
                let present = contains_string(&entry.words, &w);
                if !present {
                    entry.words.push(w);
                }
                proof {
                    if !present {
                        assert(entry.words.deep_view() =~= oldlist.push(word@));
                    } else {
                        assert(entry.words.deep_view() =~= oldlist);
                    }
                    assert forall|a: int, b: int|
                        #![trigger entry.words@[a], entry.words@[b]]
                        0 <= a < b < entry.words@.len() implies entry.words@[a]@
                        != entry.words@[b]@ by {
                        assert(strings_distinct(olds[i as int].words@));
                        if b < entry.words@.len() - 1 || present {
                            assert(entry.words@[a]@ == olds[i as int].words@[a]@);
                            assert(entry.words@[b]@ == olds[i as int].words@[b]@);
                        } else {
                            assert(entry.words@[a]@ == oldlist[a]);
                            assert(!oldlist.contains(word@));
                        }
                    }
                }
                self.vocab_map.insert(i, entry);
                proof {
                    assert(self.vocab_map@ =~= olds.update(i as int, self.vocab_map@[i as int]));
                    lemma_vocab_update(olds, i as int, self.vocab_map@[i as int]);
                    assert(old(self)@.vocab_list(model@, feature@) == oldlist);
                }
                return ;
            }
            i = i + 1;
        }
        proof {
            if self@.vocab.contains_key((model@, feature@)) {
                let j = choose|j: int|
                    0 <= j < self.vocab_map@.len() && ((#[trigger] self.vocab_map@[j]).model@,
                    self.vocab_map@[j].feature@) == (model@, feature@);
                assert(false);
            }
            assert(old(self)@.vocab_list(model@, feature@) =~= Seq::<Seq<char>>::empty());
        }
        let mut list: Vec<String> = Vec::new();
        list.push(w);
        let entry = VocabEntry { model: m, feature: f, words: list };
        proof {
            lemma_vocab_push(self.vocab_map@, entry);
        }
        self.vocab_map.push(entry);
        proof {
            assert(self@.vocab[(model@, feature@)] =~= old(self)@.vocab_list(
                model@,
                feature@,
            ).push(word@));
            assert(self@.vocab =~= old(self)@.vocab.insert(
                (model@, feature@),
                old(self)@.vocab_list(model@, feature@).push(word@),
            ));
        }
    }

    fn vocab_contains(&self, model: &str, feature: &str, word: &str) -> (b: bool) {
        proof {
            lemma_vocab_char(self.vocab_map@);
        }
        let m = model.to_owned();
        let f = feature.to_owned();
        let w = word.to_owned();
        let n = self.vocab_map.len();
        let mut i: usize = 0;
        while i < n
            invariant
                n == self.vocab_map@.len(),
                0 <= i <= n,
                forall|j: int|
                    0 <= j < i ==> ((#[trigger] self.vocab_map@[j]).model@,
                    self.vocab_map@[j].feature@) != (model@, feature@),
            decreases n - i,
        {
            if self.vocab_map[i].model == m && self.vocab_map[i].feature == f {
                return contains_string(&self.vocab_map[i].words, &w);
            }
            i = i + 1;
        }
        proof {
            if self@.vocab.contains_key((model@, feature@)) {
                let j = choose|j: int|
                    0 <= j < self.vocab_map@.len() && ((#[trigger] self.vocab_map@[j]).model@,
                    self.vocab_map@[j].feature@) == (model@, feature@);
                assert(false);
            }
        }
        false
    }

    fn vocab_size(&self, model: &str, feature: &str) -> (r: u64) {
        proof {
            lemma_vocab_char(self.vocab_map@);
        }
        let m = model.to_owned();
        let f = feature.to_owned();
        let n = self.vocab_map.len();
        let mut i: usize = 0;
        while i < n
            invariant
                n == self.vocab_map@.len(),
                0 <= i <= n,
                forall|j: int|
                    0 <= j < i ==> ((#[trigger] self.vocab_map@[j]).model@,
                    self.vocab_map@[j].feature@) != (model@, feature@),
            decreases n - i,
        {
            if self.vocab_map[i].model == m && self.vocab_map[i].feature == f {
                return self.vocab_map[i].words.len() as u64;
            }
            i = i + 1;
        }
        proof {
            if self@.vocab.contains_key((model@, feature@)) {
                let j = choose|j: int|
                    0 <= j < self.vocab_map@.len() && ((#[trigger] self.vocab_map@[j]).model@,
                    self.vocab_map@[j].feature@) == (model@, feature@);
                assert(false);
            }
        }
        0
    }
}

} // verus!
