use rust_nb::Feature;
use rust_nb::FeatureType;
use rust_nb::Model;
use rust_nb::ModelHashMapStore;
use std::collections::HashMap;

fn feat(feature_type: FeatureType, name: &str, value: &str) -> Feature {
    Feature {
        feature_type,
        name: name.to_string(),
        value: value.to_string(),
    }
}

/// The multinomial smoothing term: `t_i * (ln(c_f_c + a) - ln(c_c + V*a))`.
fn log_prob(count: f64, c_f_c: f64, c_c: f64, v: f64, pseudo_count: f64) -> f64 {
    count * ((c_f_c + pseudo_count).ln() - (c_c + v * pseudo_count).ln())
}

/// Turn log scores into probabilities with the log-sum-exp trick.
fn normalize(mut predictions: HashMap<String, f64>) -> HashMap<String, f64> {
    let max = predictions
        .values()
        .cloned()
        .fold(f64::NEG_INFINITY, f64::max);
    for v in predictions.values_mut() {
        *v = (*v - max).exp();
    }
    let norm: f64 = predictions.values().sum();
    for v in predictions.values_mut() {
        *v /= norm;
    }
    predictions
}

/// The numeric half of prediction for text and categorical features: fold
/// the engine's verified evidence into per-class log scores, then
/// normalize.  Uses the default configuration (pseudo count 1, prior
/// factor 1).
fn predict(
    model: &Model<ModelHashMapStore>,
    model_name: &str,
    features: &[Feature],
) -> HashMap<String, f64> {
    let (total, evidence) = match model.collect_evidence(model_name, features) {
        Some(te) => te,
        None => return HashMap::new(),
    };
    let mut result = HashMap::new();
    for ev in &evidence {
        let mut lp = 0.0;
        for t in &ev.terms {
            lp += log_prob(
                t.count_of_word as f64,
                t.count_of_word_in_class as f64,
                t.count_of_all_word_in_class as f64,
                t.count_of_unique_words_in_feature as f64,
                1.0,
            );
        }
        let final_log_p = 1.0 * ((ev.priors_count as f64).ln() - (total as f64).ln()) + lp;
        result.insert(ev.class.clone(), final_log_p);
    }
    normalize(result)
}

#[test]
fn model_works_simple_case() {
    let mut model = Model::new();

    let input_train = vec![
        (
            "happy".to_owned(),
            vec![Feature {
                feature_type: FeatureType::Text,
                name: "my_words".to_owned(),
                value: "good".to_owned(),
            }],
        ),
        (
            "sad".to_owned(),
            vec![Feature {
                feature_type: FeatureType::Text,
                name: "my_words".to_owned(),
                value: "bad".to_owned(),
            }],
        ),
    ];
    model.train("test_model", &input_train);

    let input_test = vec![Feature {
        feature_type: FeatureType::Text,
        name: "my_words".to_owned(),
        value: "no opinion".to_owned(),
    }];
    let result = predict(&model, "test_model", &input_test);
    assert_eq!(0.5, *result.get("happy").unwrap());
    assert_eq!(0.5, *result.get("sad").unwrap());

    let input_test = vec![Feature {
        feature_type: FeatureType::Text,
        name: "my_words".to_owned(),
        value: "GOOD".to_owned(),
    }];
    let result = predict(&model, "test_model", &input_test);
    assert!((0.6666666666666666 - *result.get("happy").unwrap()).abs() < 1e-10);
    assert!((0.3333333333333333 - *result.get("sad").unwrap()).abs() < 1e-10);
}

#[test]
fn model_works() {
    let mut model = Model::new();

    let input_train = vec![
        (
            "happy".to_owned(),
            vec![Feature {
                feature_type: FeatureType::Text,
                name: "my_words".to_owned(),
                value: "The weather is so good".to_owned(),
            }],
        ),
        (
            "sad".to_owned(),
            vec![Feature {
                feature_type: FeatureType::Text,
                name: "my_words".to_owned(),
                value: "that food tastes so bad".to_owned(),
            }],
        ),
    ];
    model.train("test_model", &input_train);

    let input_test = vec![Feature {
        feature_type: FeatureType::Text,
        name: "my_words".to_owned(),
        value: "thinking about the weather ...".to_owned(),
    }];
    let result = predict(&model, "test_model", &input_test);

    assert!((0.8 - *result.get("happy").unwrap()).abs() < 1e-10);
    assert!((0.2 - *result.get("sad").unwrap()).abs() < 1e-10);
}

#[test]
fn model_gaussian_works() {
    let mut model = Model::new();

    let ages = vec![
        ("eur".to_owned(), 20.0),
        ("eur".to_owned(), 30.0),
        ("usd".to_owned(), 40.0),
        ("usd".to_owned(), 50.0),
        ("eur".to_owned(), 40.0),
    ];
    let input_train: Vec<(String, Vec<Feature>)> = ages
        .iter()
        .map(|(class, age)| {
            (
                class.clone(),
                vec![feat(FeatureType::GaussianStd, "age", &format!("{}", age))],
            )
        })
        .collect();
    model.train("test_model", &input_train);

    // The engine counts priors and totals; the numeric accumulation of a
    // standard Gaussian feature is its caller's concern.  Run the Welford
    // accumulator over the same values, per class.
    let mut stats: HashMap<String, (f64, f64, f64)> = HashMap::new();
    for (class, age) in &ages {
        let entry = stats.entry(class.clone()).or_insert((0.0, 0.0, 0.0));
        entry.0 += 1.0;
        let delta = age - entry.1;
        entry.1 += delta / entry.0;
        let delta2 = age - entry.1;
        entry.2 += delta * delta2;
    }

    let (total, evidence) = model
        .collect_evidence("test_model", &[feat(FeatureType::GaussianStd, "age", "23")])
        .unwrap();
    assert_eq!(5, total);

    let value = 23.0;
    let mut result = HashMap::new();
    for ev in &evidence {
        let (count, mean, m2) = stats[&ev.class];
        let mut sigma = if count >= 2.0 {
            (m2 / (count - 1.0)).sqrt()
        } else {
            1.0
        };
        if sigma < 1.0 {
            sigma = 1.0;
        }
        let log_density = -sigma.ln()
            - (2.0 * std::f64::consts::PI).sqrt().ln()
            - (value - mean) * (value - mean) / (2.0 * sigma * sigma);
        let lp = (ev.priors_count as f64).ln() - (total as f64).ln() + log_density;
        result.insert(ev.class.clone(), lp);
    }
    let result = normalize(result);

    let mut p_eur = 0.0312254; // the normal density at 23 with mean 30, sigma 10
    let mut p_usd = 0.000446108; // the normal density at 23 with mean 45, sigma 7.0710678118654755

    p_usd = p_usd * (2.0 / 5.0);
    p_eur = p_eur * (3.0 / 5.0);

    p_usd = p_usd / (p_usd + p_eur);
    p_eur = 1.0 - p_usd;

    assert!((p_usd - *result.get("usd").unwrap()).abs() < 1e-6);
    assert!((p_eur - *result.get("eur").unwrap()).abs() < 1e-6);
}

#[test]
fn predicting_unknown_model_yields_nothing() {
    let model = Model::new();
    assert!(model
        .collect_evidence("never_trained", &[feat(FeatureType::Text, "f", "hello")])
        .is_none());
    assert!(predict(&model, "never_trained", &[feat(FeatureType::Text, "f", "hello")]).is_empty());
}

#[test]
fn unknown_tokens_contribute_no_terms() {
    let mut model = Model::new();
    model.train(
        "m",
        &[
            ("happy".to_string(), vec![feat(FeatureType::Text, "words", "good")]),
            ("sad".to_string(), vec![feat(FeatureType::Text, "words", "bad")]),
        ],
    );
    let (total, evidence) = model
        .collect_evidence("m", &[feat(FeatureType::Text, "words", "zzz unheard")])
        .unwrap();
    assert_eq!(2, total);
    for ev in &evidence {
        assert_eq!(0, ev.terms.len());
        assert_eq!(1, ev.priors_count);
    }
}

#[test]
fn smoothing_term_of_token_never_seen_in_class_is_zero() {
    // term(t_i=1, c_f_c=0, c_c=0, V=1, a=1) = ln(1) - ln(1) = 0
    assert_eq!(0.0, log_prob(1.0, 0.0, 0.0, 1.0, 1.0));

    // The same inputs arise when a class never saw a feature whose
    // vocabulary knows exactly the queried token.
    let mut model = Model::new();
    model.train(
        "m",
        &[
            ("happy".to_string(), vec![feat(FeatureType::Text, "f", "x")]),
            ("sad".to_string(), vec![feat(FeatureType::Text, "g", "y")]),
        ],
    );
    let (_, evidence) = model
        .collect_evidence("m", &[feat(FeatureType::Text, "f", "x")])
        .unwrap();
    let sad = evidence.iter().find(|e| e.class == "sad").unwrap();
    assert_eq!(1, sad.terms.len());
    let t = &sad.terms[0];
    assert_eq!(1, t.count_of_word);
    assert_eq!(0, t.count_of_word_in_class);
    assert_eq!(0, t.count_of_all_word_in_class);
    assert_eq!(1, t.count_of_unique_words_in_feature);
    assert_eq!(
        0.0,
        log_prob(
            t.count_of_word as f64,
            t.count_of_word_in_class as f64,
            t.count_of_all_word_in_class as f64,
            t.count_of_unique_words_in_feature as f64,
            1.0,
        )
    );
}

#[test]
fn category_features_use_trimmed_value_as_one_token() {
    let mut model = Model::new();
    model.train(
        "m",
        &[
            (
                "spam".to_string(),
                vec![feat(FeatureType::Category, "domain", " example.com ")],
            ),
            (
                "ham".to_string(),
                vec![feat(FeatureType::Category, "domain", "rust-lang.org")],
            ),
        ],
    );
    assert!(model.is_word_appeared_in_feature("m", "domain", "example.com"));
    assert_eq!(2, model.get_count_of_unique_words_in_feature("m", "domain"));

    let result = predict(
        &model,
        "m",
        &[feat(FeatureType::Category, "domain", "example.com")],
    );
    assert!((2.0 / 3.0 - *result.get("spam").unwrap()).abs() < 1e-10);
    assert!((1.0 / 3.0 - *result.get("ham").unwrap()).abs() < 1e-10);
}

#[test]
fn stop_words_are_dropped_in_training_and_prediction() {
    let mut model = Model::new().with_stop_words(vec!["so".to_string(), "the".to_string()]);
    model.train(
        "m",
        &[
            (
                "happy".to_string(),
                vec![feat(FeatureType::Text, "words", "the weather is so good")],
            ),
            (
                "sad".to_string(),
                vec![feat(FeatureType::Text, "words", "so bad")],
            ),
        ],
    );
    assert!(!model.is_word_appeared_in_feature("m", "words", "so"));
    assert!(!model.is_word_appeared_in_feature("m", "words", "the"));
    assert!(model.is_word_appeared_in_feature("m", "words", "weather"));

    let (_, evidence) = model
        .collect_evidence("m", &[feat(FeatureType::Text, "words", "so the")])
        .unwrap();
    for ev in &evidence {
        assert_eq!(0, ev.terms.len());
    }
}

#[test]
fn total_data_count_equals_feature_instances_trained() {
    let mut model = Model::new();
    model.train(
        "m",
        &[
            (
                "a".to_string(),
                vec![
                    feat(FeatureType::Text, "t", "one two"),
                    feat(FeatureType::Category, "c", "x"),
                    feat(FeatureType::Gaussian, "g", "1.5"),
                ],
            ),
            ("b".to_string(), vec![feat(FeatureType::Text, "t", "three")]),
        ],
    );
    assert_eq!(4, model.get_total_data_count("m"));
    assert_eq!(3, model.get_priors_count_of_class("m", "a"));
    assert_eq!(1, model.get_priors_count_of_class("m", "b"));

    let before = model.get_count_of_unique_words_in_feature("m", "t");
    model.train(
        "m",
        &[("a".to_string(), vec![feat(FeatureType::Text, "t", "four five")])],
    );
    assert_eq!(5, model.get_total_data_count("m"));
    assert!(model.get_count_of_unique_words_in_feature("m", "t") >= before);
}

#[test]
fn gaussian_features_count_toward_priors_and_totals() {
    let mut model = Model::new();
    model.train(
        "m",
        &[
            ("eur".to_string(), vec![feat(FeatureType::Gaussian, "age", "20")]),
            ("eur".to_string(), vec![feat(FeatureType::Gaussian, "age", "30")]),
            ("usd".to_string(), vec![feat(FeatureType::Gaussian, "age", "40")]),
        ],
    );
    assert_eq!(3, model.get_total_data_count("m"));
    assert_eq!(2, model.get_priors_count_of_class("m", "eur"));
    assert_eq!(1, model.get_priors_count_of_class("m", "usd"));
    // A numeric feature feeds no token statistics.
    assert_eq!(0, model.get_count_of_unique_words_in_feature("m", "age"));
}
