use rust_nb::Model;
use rust_nb::ModelStore;

#[test]
fn lib_model_hashmap_store_works() {
    let model = Model::new();
    assert_eq!(0, model.get_total_data_count("test_model") as usize);
    let mut model = model;
    model.add_to_total_data_count("test_model", 1);
    assert_eq!(1, model.get_total_data_count("test_model") as usize);
    model.add_to_total_data_count("test_model", 10);
    assert_eq!(11, model.get_total_data_count("test_model") as usize);
}

#[test]
fn newsgroup_test_model_hashmap_store_works() {
    let model = Model::new();
    assert_eq!(0, model.get_total_data_count("test_model") as usize);
    let mut model = model;
    model.add_to_total_data_count("test_model", 1);
    assert_eq!(1, model.get_total_data_count("test_model") as usize);
    model.add_to_total_data_count("test_model", 10);
    assert_eq!(11, model.get_total_data_count("test_model") as usize);
}

#[test]
fn model_count_classes_works() {
    let model = Model::new();
    assert_eq!(
        0,
        model.get_priors_count_of_class("test_model", "class_1") as usize
    );
    assert_eq!(
        0,
        model.get_priors_count_of_class("test_model", "class_2") as usize
    );
    assert_eq!(None, model.model_store.get_all_classes("test_model"));

    let mut model = model;

    model.add_to_priors_count_of_class("test_model", "class_1", 1);
    assert_eq!(
        1,
        model.get_priors_count_of_class("test_model", "class_1") as usize
    );
    assert_eq!(
        1,
        model
            .model_store
            .get_all_classes("test_model")
            .unwrap()
            .len()
    );

    model.add_to_priors_count_of_class("test_model", "class_1", 10);
    assert_eq!(
        11,
        model.get_priors_count_of_class("test_model", "class_1") as usize
    );
    assert_eq!(
        1,
        model
            .model_store
            .get_all_classes("test_model")
            .unwrap()
            .len()
    );

    model.add_to_priors_count_of_class("test_model", "class_2", 10);
    assert_eq!(
        10,
        model.get_priors_count_of_class("test_model", "class_2") as usize
    );
    assert_eq!(
        2,
        model
            .model_store
            .get_all_classes("test_model")
            .unwrap()
            .len()
    );

    model.add_to_priors_count_of_class("test_model", "class_2", 10);
    assert_eq!(
        20,
        model.get_priors_count_of_class("test_model", "class_2") as usize
    );
    assert_eq!(
        2,
        model
            .model_store
            .get_all_classes("test_model")
            .unwrap()
            .len()
    );
}

#[test]
fn vocabulary_counts_distinct_words_once() {
    let mut model = Model::new();
    assert_eq!(0, model.get_count_of_unique_words_in_feature("m", "f"));
    assert!(!model.is_word_appeared_in_feature("m", "f", "good"));

    model.add_to_count_of_word_in_class("m", "f", "happy", "good", 2);
    assert_eq!(1, model.get_count_of_unique_words_in_feature("m", "f"));
    assert!(model.is_word_appeared_in_feature("m", "f", "good"));

    model.add_to_count_of_word_in_class("m", "f", "sad", "good", 1);
    assert_eq!(1, model.get_count_of_unique_words_in_feature("m", "f"));

    model.add_to_count_of_word_in_class("m", "f", "sad", "bad", 1);
    assert_eq!(2, model.get_count_of_unique_words_in_feature("m", "f"));
    assert!(model.is_word_appeared_in_feature("m", "f", "bad"));
    assert!(!model.is_word_appeared_in_feature("m", "other", "bad"));
}

#[test]
fn absent_counters_read_as_zero() {
    let model = Model::new();
    assert_eq!(0, model.get_total_data_count("never_trained"));
    assert_eq!(0, model.get_priors_count_of_class("never_trained", "c"));
    assert_eq!(0, model.get_count_of_word_in_class("never_trained", "f", "c", "w"));
    assert_eq!(0, model.get_count_of_all_word_in_class("never_trained", "f", "c"));
    assert_eq!(0, model.get_count_of_unique_words_in_feature("never_trained", "f"));
    assert!(!model.is_word_appeared_in_feature("never_trained", "f", "w"));
}

#[test]
fn word_counts_accumulate_per_class() {
    let mut model = Model::new();
    model.add_to_count_of_word_in_class("m", "f", "happy", "good", 2);
    model.add_to_count_of_word_in_class("m", "f", "happy", "good", 3);
    model.add_to_count_of_word_in_class("m", "f", "sad", "good", 1);
    model.add_to_count_of_all_word_in_class("m", "f", "happy", 5);
    assert_eq!(5, model.get_count_of_word_in_class("m", "f", "happy", "good"));
    assert_eq!(1, model.get_count_of_word_in_class("m", "f", "sad", "good"));
    assert_eq!(5, model.get_count_of_all_word_in_class("m", "f", "happy"));
    assert_eq!(0, model.get_count_of_all_word_in_class("m", "f", "sad"));
}
