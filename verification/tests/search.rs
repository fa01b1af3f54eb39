use poketype::error::MatchupError;
use poketype::model::LocalizedName;
use poketype::search::{english_search, english_search_by, linear_search};

fn lname(language: &str, name: &str) -> LocalizedName {
    LocalizedName { language: language.to_string(), name: name.to_string() }
}

#[test]
fn linear_search_finds_first_match() {
    let list = vec![1, 4, 6, 8, 7];
    let found = linear_search(&list, |v: &i32| v % 2 == 0).unwrap();
    assert_eq!(*found, 4);
}

#[test]
fn linear_search_falls_back_to_first_element() {
    let list = vec![1, 3, 5];
    let found = linear_search(&list, |v: &i32| v % 2 == 0).unwrap();
    assert_eq!(*found, 1);
}

#[test]
fn linear_search_fails_on_empty_list() {
    let list: Vec<i32> = vec![];
    let err = linear_search(&list, |v: &i32| v % 2 == 0).unwrap_err();
    assert_eq!(err, MatchupError::NoSuitableValue);
    assert_eq!(err.message(), "unable to find a suitable value");
}

#[test]
fn english_search_picks_the_english_entry() {
    let list = vec![lname("ja", "ほのお"), lname("en", "Fire"), lname("de", "Feuer")];
    let found = english_search(&list).unwrap();
    assert_eq!(found.name, "Fire");
}

#[test]
fn english_search_falls_back_to_first_entry() {
    let list = vec![lname("ja", "ほのお"), lname("de", "Feuer")];
    let found = english_search(&list).unwrap();
    assert_eq!(found.name, "ほのお");
}

#[test]
fn english_search_fails_on_empty_list() {
    let list: Vec<LocalizedName> = vec![];
    assert_eq!(english_search(&list).unwrap_err(), MatchupError::NoSuitableValue);
}

#[test]
fn english_search_by_uses_the_caller_test() {
    let list = vec![("fr", "feu"), ("en", "fire"), ("en", "flame")];
    let found = english_search_by(&list, |v: &(&str, &str)| v.0 == "en").unwrap();
    assert_eq!(found.1, "fire");
}
