use decompound::casing::{order_candidates, str_precedes, suffix_candidates};
use decompound::hyphen::split_hyphens;
use decompound::policy::select_split;
use decompound::search::compound_splits;

fn owned(words: &[&str]) -> Vec<String> {
    words.iter().map(|w| w.to_string()).collect()
}

#[test]
fn code_point_order() {
    assert!(str_precedes("ab", "b"));
    assert!(!str_precedes("b", "ab"));
    assert!(!str_precedes("a", "a"));
    assert!(str_precedes("", "a"));
    assert!(!str_precedes("a", ""));
    assert!(str_precedes("ab", "abc"));
    assert!(str_precedes("Z", "a"));
    assert!(!str_precedes("é", "f"));
    assert!(str_precedes("Ss", "ß"));
}

#[test]
fn candidates_ordered_and_deduplicated() {
    assert_eq!(order_candidates("boot", "Boot".to_string()), owned(&["Boot", "boot"]));
    assert_eq!(order_candidates("Boot", "Boot".to_string()), owned(&["Boot"]));
    assert_eq!(order_candidates("ß", "Ss".to_string()), owned(&["Ss", "ß"]));
    assert_eq!(order_candidates("BOOT", "Boot".to_string()), owned(&["BOOT", "Boot"]));
}

#[test]
fn suffix_candidates_titlecase() {
    assert_eq!(suffix_candidates("boot", false), owned(&["boot"]));
    assert_eq!(suffix_candidates("boot", true), owned(&["Boot", "boot"]));
    assert_eq!(suffix_candidates("bOOT", true), owned(&["Boot", "bOOT"]));
    assert_eq!(suffix_candidates("Boot", true), owned(&["Boot"]));
    assert_eq!(suffix_candidates("ﬄabc", true), owned(&["Fflabc", "ﬄabc"]));
    assert_eq!(suffix_candidates("", true), owned(&[""]));
}

#[test]
fn hyphen_parts_in_order() {
    assert_eq!(split_hyphens("self-esteem"), vec!["self", "esteem"]);
    assert_eq!(split_hyphens("a--b"), vec!["a", "", "b"]);
    assert_eq!(split_hyphens("-"), vec!["", ""]);
    assert_eq!(split_hyphens(""), vec![""]);
    assert_eq!(split_hyphens("Küchen-Füße"), vec!["Küchen", "Füße"]);
}

#[test]
fn all_partitions_in_order_of_finding() {
    let words = ["a", "b", "ab", "ba"];
    let found = compound_splits("aba", &|w: &str| words.contains(&w), false);
    assert_eq!(
        found,
        vec![owned(&["a", "ba"]), owned(&["a", "b", "a"]), owned(&["ab", "a"])]
    );
    assert_eq!(select_split(&found, false), 0);
    assert_eq!(select_split(&found, true), 1);
}

#[test]
fn no_partitions_of_short_words() {
    let anything = |_: &str| true;
    assert!(compound_splits("", &anything, true).is_empty());
    assert!(compound_splits("x", &anything, true).is_empty());
}

#[test]
fn selection_ties_take_first() {
    let ps = vec![owned(&["a", "b", "c"]), owned(&["ab", "c"]), owned(&["a", "bc"]), owned(&["a", "b", "c"])];
    assert_eq!(select_split(&ps, false), 1);
    assert_eq!(select_split(&ps, true), 0);
}
