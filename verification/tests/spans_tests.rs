use reginald_lib::regex::Regex;
use reginald_lib::spans::{are_separate, matched_parts, replace_matches};

#[test]
fn spans_in_order_are_separate() {
    assert!(are_separate(&vec![], 0));
    assert!(are_separate(&vec![(0, 1)], 1));
    assert!(are_separate(&vec![(0, 2), (2, 1), (5, 3)], 8));
}

#[test]
fn spans_out_of_order_or_out_of_the_text_are_not_separate() {
    assert!(!are_separate(&vec![(0, 2), (1, 1)], 8));
    assert!(!are_separate(&vec![(3, 1), (0, 1)], 8));
    assert!(!are_separate(&vec![(0, 0)], 8));
    assert!(!are_separate(&vec![(7, 2)], 8));
    assert!(!are_separate(&vec![(9, 1)], 8));
    assert!(!are_separate(&vec![(1, usize::MAX)], 8));
}

#[test]
fn matches_are_separate() {
    let text = "aaaab ab ac aaacab";
    let found = Regex::compile("a+(b|c)").unwrap().matches(text);
    assert!(are_separate(&found, text.chars().count()));
}

#[test]
fn matched_parts_are_cut_out() {
    let text = "aab ab xéé";
    assert_eq!(matched_parts(text, &vec![(0, 3), (4, 2), (8, 2)]), vec!["aab", "ab", "éé"]);
    assert_eq!(matched_parts(text, &vec![]), Vec::<String>::new());
}

#[test]
fn every_match_is_replaced() {
    let text = "aaaab ab ac aaacab.";
    let found = Regex::compile("a+(b|c)").unwrap().matches(text);
    assert_eq!(replace_matches(text, &found, "<>"), "<> <> <> <><>.");
    assert_eq!(replace_matches(text, &vec![], "<>"), text);
    assert_eq!(replace_matches("abc", &vec![(0, 3)], ""), "");
    assert_eq!(replace_matches("éaé", &vec![(1, 1)], "ß"), "éßé");
}
