use rust_nb::clean_text;
use rust_nb::count;
use rust_nb::pair_count;
use rust_nb::trim_value;

#[test]
fn count_works() {
    let result = count("This is good good ... Rust Rust Rust", &None);
    assert_eq!(2, pair_count(&result, "good"));
    assert_eq!(1, pair_count(&result, "This"));
    assert_eq!(1, pair_count(&result, "is"));
    assert_eq!(3, pair_count(&result, "Rust"));
}

#[test]
fn clean_text_works() {
    let text = "This is &/some weird TEXT";

    let cleaned_text = clean_text(text);
    assert_eq!("this is some weird text", cleaned_text);
}

#[test]
fn case_and_token_normalization_works() {
    let cleaned = clean_text("This is good good ... Rust rust RUST");
    let result = count(&cleaned, &None);
    assert_eq!(1, pair_count(&result, "this"));
    assert_eq!(1, pair_count(&result, "is"));
    assert_eq!(2, pair_count(&result, "good"));
    assert_eq!(3, pair_count(&result, "rust"));
    assert_eq!(4, result.len());
}

#[test]
fn clean_text_collapses_runs_and_trims() {
    assert_eq!("", clean_text(""));
    assert_eq!("", clean_text("123 .. 456"));
    assert_eq!("a b", clean_text("  a&&&b  "));
    assert_eq!("abc", clean_text("ABC"));
    assert_eq!("caf and th", clean_text("café and thé"));
}

#[test]
fn count_empty_text_yields_one_empty_token() {
    let result = count("", &None);
    assert_eq!(1, result.len());
    assert_eq!(1, pair_count(&result, ""));
}

#[test]
fn count_filters_stop_words() {
    let stop = Some(vec!["is".to_string(), "the".to_string()]);
    let result = count("the weather is so good", &stop);
    assert_eq!(0, pair_count(&result, "the"));
    assert_eq!(0, pair_count(&result, "is"));
    assert_eq!(1, pair_count(&result, "weather"));
    assert_eq!(1, pair_count(&result, "so"));
    assert_eq!(1, pair_count(&result, "good"));
    assert_eq!(3, result.len());
}

#[test]
fn trim_value_strips_outer_whitespace() {
    assert_eq!("red", trim_value("  red\t\n"));
    assert_eq!("two words", trim_value(" two words "));
    assert_eq!("", trim_value(" \t\r\n "));
    assert_eq!("x", trim_value("x"));
}
