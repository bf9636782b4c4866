use reginald_lib::lexer::{chars_of, SetSymbol};
use reginald_lib::regex::{consumes_char, set_contains, StateType};
use reginald_lib::text::{push_char_debug, push_decimal, push_string, string_of};

fn decimal(n: usize) -> String {
    let mut out = vec![];
    push_decimal(n, &mut out);
    string_of(&out)
}

fn quoted(c: char) -> String {
    let mut out = vec![];
    push_char_debug(c, &mut out);
    string_of(&out)
}

#[test]
fn string_is_appended_character_by_character() {
    let mut out = vec!['a'];
    push_string("bé", &mut out);
    push_string("", &mut out);
    assert_eq!(out, vec!['a', 'b', 'é']);
}

#[test]
fn numbers_in_decimal() {
    assert_eq!(decimal(0), "0");
    assert_eq!(decimal(7), "7");
    assert_eq!(decimal(10), "10");
    assert_eq!(decimal(1905), "1905");
    assert_eq!(decimal(usize::MAX), usize::MAX.to_string());
}

#[test]
fn characters_in_quotes() {
    assert_eq!(quoted('a'), "'a'");
    assert_eq!(quoted('\n'), "'\\n'");
    assert_eq!(quoted('\t'), "'\\t'");
    assert_eq!(quoted('\''), "'\\''");
    assert_eq!(quoted('\\'), "'\\\\'");
    assert_eq!(quoted('\u{1}'), "'\\u{1}'");
}

#[test]
fn characters_to_string_and_back() {
    assert_eq!(string_of(&vec!['h', 'é', '!']), "hé!");
    assert_eq!(string_of(&vec![]), "");
    assert_eq!(chars_of("hé!"), vec!['h', 'é', '!']);
    assert_eq!(chars_of(""), Vec::<char>::new());
}

#[test]
fn member_of_a_class() {
    let set = vec![SetSymbol::Char('x'), SetSymbol::Range(97, 99)];
    assert!(set_contains(&set, 'x'));
    assert!(set_contains(&set, 'a'));
    assert!(set_contains(&set, 'c'));
    assert!(!set_contains(&set, 'd'));
    assert!(!set_contains(&set, '`'));
    assert!(!set_contains(&vec![], 'a'));
    assert!(!set_contains(&vec![SetSymbol::Range(99, 97)], 'b'));
}

#[test]
fn what_each_state_type_consumes() {
    assert!(consumes_char(&StateType::Symbol('a'), 'a'));
    assert!(!consumes_char(&StateType::Symbol('a'), 'b'));
    assert!(consumes_char(&StateType::Any, 'b'));
    assert!(consumes_char(&StateType::InSet(vec![SetSymbol::Char('a')]), 'a'));
    assert!(!consumes_char(&StateType::InSet(vec![SetSymbol::Char('a')]), 'b'));
    assert!(!consumes_char(&StateType::NotSet(vec![SetSymbol::Char('a')]), 'a'));
    assert!(consumes_char(&StateType::NotSet(vec![SetSymbol::Char('a')]), 'b'));
    assert!(!consumes_char(&StateType::Accept, 'a'));
    assert!(!consumes_char(&StateType::Epsilon, 'a'));
}
