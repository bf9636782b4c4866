use reginald_lib::regex::{Regex, StateType};
use reginald_lib::lexer::SetSymbol;

fn spans(pattern: &str, text: &str) -> Vec<(usize, usize)> {
    Regex::compile(pattern).unwrap().matches(text)
}

fn slices(pattern: &str, text: &str) -> Vec<String> {
    let chars: Vec<char> = text.chars().collect();
    spans(pattern, text)
        .iter()
        .map(|(start, size)| chars[*start..*start + *size].iter().collect())
        .collect()
}

fn whole(pattern: &str, text: &str) -> bool {
    Regex::compile(pattern).unwrap().test(text)
}

#[test]
fn regex_test() {
    let regex = Regex::compile("a{2,}").unwrap();

    assert!(regex.test("aaa"));
}

#[test]
fn test_matches() {
    let regex = Regex::compile("a+(b|c)").unwrap();

    let found = regex.matches("aaaab ab ac aaacab");

    assert_eq!(found.len(), 5);
    assert_eq!(found[0], (0, 5));
    assert_eq!(found[1], (6, 2));
    assert_eq!(found[2], (9, 2));
    assert_eq!(found[3], (12, 4));
    assert_eq!(found[4], (16, 2));
}

#[test]
fn test_is_match() {
    let regex = Regex::compile("a+(b|c)").unwrap();

    assert!(regex.is_match("yas ao cbhj bqwo aaab nme ab"))
}

#[test]
fn interpret_test() {
    let matches = slices("a*ab", "aab ab");

    assert_eq!(matches[0], "aab");
    assert_eq!(matches[1], "ab");
}

#[test]
fn bounded_repetition_boundaries() {
    let regex = Regex::compile("a{2,3}").unwrap();
    assert!(regex.test("aa"));
    assert!(regex.test("aaa"));
    assert!(!regex.test("a"));
    assert!(!regex.test("aaaa"));
    assert_eq!(regex.matches("aaaa")[0], (0, 3));
    assert_eq!(regex.first_match("aaaa"), Some((0, 3)));
}

#[test]
fn classes_and_negated_classes() {
    let class = Regex::compile("[a-c]").unwrap();
    assert!(class.test("a"));
    assert!(class.test("b"));
    assert!(class.test("c"));
    assert!(!class.test("d"));
    let negated = Regex::compile("[^a-c]").unwrap();
    assert!(negated.test("d"));
    assert!(!negated.test("a"));
}

#[test]
fn class_of_characters_and_ranges() {
    assert_eq!(spans("[xa-c0-1]+", "x1b-d0"), vec![(0, 3), (5, 1)]);
    assert_eq!(spans("[^xa-c0-1]+", "x1b-d0"), vec![(3, 2)]);
}

#[test]
fn mixed_quantifiers_match_whole_string() {
    let regex = Regex::compile("a{1,}c{,1}d{2,3}").unwrap();
    assert!(regex.test("acdd"));
    assert!(regex.test("aaddd"));
    assert!(!regex.test("acd"));
    assert!(!regex.test("cdd"));
}

#[test]
fn unterminated_group_fails() {
    let error = Regex::compile("(").err().unwrap();
    assert_eq!(error.to_string(), "expected closing parenthesis");
}

#[test]
fn zero_maximum_fails() {
    let error = Regex::compile("a{,0}").err().unwrap();
    assert_eq!(error.to_string(), "to must be greater than 0 in range");
}

#[test]
fn compile_fails_on_what_is_left_over() {
    assert_eq!(Regex::compile("a)").err().unwrap().to_string(), "unknown symbol");
    assert!(Regex::compile("").is_err());
    assert!(Regex::compile("[z-a]").is_err());
    assert!(Regex::compile("a{3,2}").is_err());
}

#[test]
fn literal_sequence() {
    assert!(whole("abc", "abc"));
    assert!(!whole("abc", "ab"));
    assert!(!whole("abc", "abcd"));
    assert_eq!(spans("ab", "abab ab"), vec![(0, 2), (2, 2), (5, 2)]);
}

#[test]
fn wildcard_takes_any_character() {
    assert!(whole("a.c", "abc"));
    assert!(whole("a.c", "a c"));
    assert!(!whole("a.c", "ac"));
    assert_eq!(spans(".", "xy"), vec![(0, 1), (1, 1)]);
}

#[test]
fn alternation_takes_either_branch() {
    assert!(whole("ab|cd", "ab"));
    assert!(whole("ab|cd", "cd"));
    assert!(!whole("ab|cd", "ad"));
    assert!(whole("(a|b)(c|d)", "bc"));
}

#[test]
fn optional_takes_one_or_none() {
    assert!(whole("ab?c", "ac"));
    assert!(whole("ab?c", "abc"));
    assert!(!whole("ab?c", "abbc"));
}

#[test]
fn star_takes_none_or_many() {
    assert!(whole("b*c", "c"));
    assert!(whole("b*c", "bc"));
    assert!(whole("b*c", "bbbc"));
    assert!(!whole("b*c", "bb"));
    assert!(whole("(ab)*c", "ababc"));
    assert!(whole("(a|b)c*d", "bccd"));
}

#[test]
fn plus_takes_one_at_least() {
    assert!(!whole("b+c", "c"));
    assert!(whole("b+c", "bc"));
    assert!(whole("b+c", "bbbc"));
    assert!(whole("(ab)+", "ababab"));
    assert!(whole("(a|b)c+d", "bccd"));
}

#[test]
fn loop_leads_back_to_its_entry_state() {
    // behind a literal the entry of the loop is the state of that literal
    assert!(whole("ab+c", "abc"));
    assert!(whole("ab+c", "ababc"));
    assert!(!whole("ab+c", "abbc"));
    assert!(whole("ab*c", "ac"));
    assert!(whole("ab*c", "abac"));
    assert!(!whole("ab*c", "abc"));
    // what follows a star starts at the entry too
    assert!(whole("a*b*", "ba"));
}

#[test]
fn at_most_takes_up_to_the_maximum() {
    assert!(whole("xa{,2}", "x"));
    assert!(whole("xa{,2}", "xa"));
    assert!(whole("xa{,2}", "xaa"));
    assert!(!whole("xa{,2}", "xaaa"));
    assert_eq!(spans("a{,2}", "aaaaa"), vec![(0, 2), (2, 2), (4, 1)]);
}

#[test]
fn at_least_takes_the_minimum_and_more() {
    assert!(!whole("a{2,}", "a"));
    assert!(whole("a{2,}", "aa"));
    assert!(whole("a{2,}", "aaaaaaa"));
    assert_eq!(spans("a{2,}", "a aa aaaa"), vec![(2, 2), (5, 4)]);
}

#[test]
fn at_least_zero_takes_one_at_least() {
    assert!(whole("a{0,}b", "ab"));
    assert!(whole("a{0,}b", "aaab"));
    assert!(!whole("a{0,}b", "b"));
    assert_eq!(spans("a{0,}", "baab"), vec![(1, 2)]);
}

#[test]
fn between_takes_what_lies_in_the_bounds() {
    assert!(whole("(ab){1,2}", "ab"));
    assert!(whole("(ab){1,2}", "abab"));
    assert!(!whole("(ab){1,2}", "ababab"));
    assert!(whole("a{2,2}", "aa"));
    assert!(!whole("a{2,2}", "a"));
    assert!(!whole("a{2,2}", "aaa"));
    assert!(whole("xa{0,1}", "x"));
    assert!(whole("xa{0,1}", "xa"));
}

#[test]
fn empty_text_passes_the_test_of_every_pattern() {
    assert!(whole("a", ""));
    assert!(whole("a+b", ""));
}

#[test]
fn empty_text_holds_no_match() {
    let regex = Regex::compile("a*").unwrap();
    assert_eq!(regex.matches(""), vec![]);
    assert!(!regex.is_match(""));
    assert_eq!(regex.first_match(""), None);
}

#[test]
fn no_match_is_an_empty_result() {
    let regex = Regex::compile("a+(b|c)").unwrap();
    assert_eq!(regex.matches("xyz aaa"), vec![]);
    assert!(!regex.is_match("xyz aaa"));
    assert_eq!(regex.first_match("xyz aaa"), None);
}

#[test]
fn first_match_is_the_first_span_of_matches() {
    let regex = Regex::compile("a+(b|c)").unwrap();
    let text = "yas ao cbhj bqwo aaab nme ab";
    assert_eq!(regex.first_match(text), Some((17, 4)));
    assert_eq!(regex.matches(text), vec![(17, 4), (26, 2)]);
}

#[test]
fn longest_match_wins_at_each_start() {
    assert_eq!(spans("a|ab|abc", "abcabx"), vec![(0, 3), (3, 2)]);
    assert_eq!(spans("a*", "aaa"), vec![(0, 3)]);
}

#[test]
fn empty_matches_are_passed_over() {
    assert_eq!(spans("a*", "bab"), vec![(1, 1)]);
    assert_eq!(spans("a?", "bb"), vec![]);
}

#[test]
fn offsets_count_characters() {
    assert_eq!(spans("é+", "aéé b é"), vec![(1, 2), (6, 1)]);
    assert!(whole("é.", "éß"));
    assert_eq!(slices("ß+", "aßßb"), vec!["ßß"]);
}

#[test]
fn nested_stars_come_to_an_end() {
    let regex = Regex::compile("(a*)*").unwrap();
    assert!(regex.test("aaa"));
    assert_eq!(regex.matches("baab"), vec![(1, 2)]);
    assert_eq!(regex.matches("bbb"), vec![]);
    let regex = Regex::compile("((a|b)*c?)*d").unwrap();
    assert!(regex.test("abcabd"));
    assert!(!regex.test("abcab"));
}

#[test]
fn spans_and_gaps_make_up_the_text() {
    let text = "aaaab ab ac aaacab xx";
    let chars: Vec<char> = text.chars().collect();
    let found = spans("a+(b|c)", text);
    let mut rebuilt = String::new();
    let mut at = 0;
    for (start, size) in &found {
        assert!(at <= *start);
        assert!(*size > 0);
        rebuilt.extend(&chars[at..*start]);
        rebuilt.extend(&chars[*start..*start + *size]);
        at = *start + *size;
    }
    rebuilt.extend(&chars[at..]);
    assert_eq!(rebuilt, text);
}

#[test]
fn repeated_calls_agree() {
    let regex = Regex::compile("(a|b)+c{,2}").unwrap();
    let text = "abcc bac c abccc";
    assert_eq!(regex.matches(text), regex.matches(text));
    assert_eq!(regex.test(text), regex.test(text));
    assert_eq!(regex.is_match(text), regex.is_match(text));
    assert_eq!(regex.first_match(text), regex.first_match(text));
}

#[test]
fn automaton_as_a_flowchart() {
    let regex = Regex::compile("a{2,}").unwrap();
    assert_eq!(
        regex.to_string(),
        "```mermaid\nflowchart LR\n\t0(None)\n\t0-->1\n\t1('a')\n\t1-->2\n\t2('a')\n\t2-->3\n\t3(None)\n\t3-->4\n\t3-->5\n\t4('a')\n\t4-->3\n\t5(Accept)\n```\n"
    );
}

#[test]
fn automaton_of_each_construction() {
    let chart = |pattern: &str| Regex::compile(pattern).unwrap().to_string();
    let framed = |rows: &str| format!("```mermaid\nflowchart LR\n{}```\n", rows);
    assert_eq!(chart("a"), framed("\t0(None)\n\t0-->1\n\t1('a')\n\t1-->2\n\t2(Accept)\n"));
    assert_eq!(
        chart("a*"),
        framed("\t0(None)\n\t0-->1\n\t0-->2\n\t1('a')\n\t1-->0\n\t2(Accept)\n")
    );
    assert_eq!(
        chart("a+"),
        framed("\t0(None)\n\t0-->1\n\t1('a')\n\t1-->0\n\t1-->2\n\t2(Accept)\n")
    );
    assert_eq!(
        chart("a?"),
        framed("\t0(None)\n\t0-->1\n\t0-->2\n\t1('a')\n\t1-->2\n\t2(None)\n\t2-->3\n\t3(Accept)\n")
    );
    assert_eq!(
        chart("a|."),
        framed(
            "\t0(None)\n\t0-->1\n\t0-->2\n\t1('a')\n\t1-->3\n\t2(Any)\n\t2-->3\n\t3(None)\n\t3-->4\n\t4(Accept)\n"
        )
    );
    assert_eq!(
        chart("a{0,}"),
        framed("\t0(None)\n\t0-->1\n\t1('a')\n\t1-->0\n\t1-->2\n\t2(Accept)\n")
    );
    assert_eq!(
        chart("a{,2}"),
        framed(
            "\t0(None)\n\t0-->1\n\t0-->2\n\t1(None)\n\t1-->4\n\t2('a')\n\t2-->1\n\t2-->3\n\t3('a')\n\t3-->1\n\t4(Accept)\n"
        )
    );
    assert_eq!(
        chart("a{1,2}"),
        framed(
            "\t0(None)\n\t0-->1\n\t1('a')\n\t1-->2\n\t1-->3\n\t2(None)\n\t2-->4\n\t3('a')\n\t3-->2\n\t4(Accept)\n"
        )
    );
    assert_eq!(
        chart("[ab-c][^d]"),
        framed(
            "\t0(None)\n\t0-->1\n\t1('a', '98'-'99')\n\t1-->2\n\t2(not 'd')\n\t2-->3\n\t3(Accept)\n"
        )
    );
}

#[test]
fn state_types_as_labels() {
    assert_eq!(StateType::Symbol('a').to_string(), "'a'");
    assert_eq!(StateType::Accept.to_string(), "Accept");
    assert_eq!(StateType::Epsilon.to_string(), "None");
    assert_eq!(StateType::Any.to_string(), "Any");
    assert_eq!(
        StateType::InSet(vec![SetSymbol::Char('a'), SetSymbol::Range(98, 122)]).to_string(),
        "'a', '98'-'122'"
    );
    assert_eq!(StateType::NotSet(vec![SetSymbol::Range(48, 57)]).to_string(), "not '48'-'57'");
}
