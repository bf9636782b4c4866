use reginald_lib::lexer::{Lexer, SetSymbol};
use reginald_lib::parser::{parse_regex, ParseError, SyntaxType, AST};

fn parse(string: &str) -> String {
    parse_regex(&mut Lexer::new(string)).unwrap().to_string(true)
}

fn tree(string: &str) -> AST {
    parse_regex(&mut Lexer::new(string)).unwrap()
}

fn failure(string: &str) -> String {
    match parse_regex(&mut Lexer::new(string)) {
        Ok(ast) => panic!("parsed as {}", ast.to_string(true)),
        Err(error) => error.to_string(),
    }
}

#[test]
fn parser_test() {
    assert_eq!(parse("abcd"), "((Symbol('a'))(Symbol('b'))(Symbol('c'))(Symbol('d'))Once)");
    assert_eq!(parse("(ab)cd"), "(((Symbol('a'))(Symbol('b'))Once)(Symbol('c'))(Symbol('d'))Once)");
    assert_eq!(parse("a+c*d+e?"), "(((Symbol('a'))OneOrMore)((Symbol('c'))ZeroOrMore)((Symbol('d'))OneOrMore)((Symbol('e'))Optional)Once)");
    assert_eq!(parse("a{1,}c{,1}d{2,3}"), "(((Symbol('a'))From(1))((Symbol('c'))To(1))((Symbol('d'))Between(2, 3))Once)");
    assert_eq!(parse("[ab-z][^ab-z]"), "((Set([Char('a'), Range(98, 122)]))(NotSet([Char('a'), Range(98, 122)]))Once)");
    assert_eq!(parse("(ab)*cd+"), "((((Symbol('a'))(Symbol('b'))Once)ZeroOrMore)(Symbol('c'))((Symbol('d'))OneOrMore)Once)");
    assert_eq!(parse("ab|cd"), "((((Symbol('a'))(Symbol('b'))Once)((Symbol('c'))(Symbol('d'))Once)Or)Once)");
    assert_eq!(parse("(a)+b|c*d"), "((((((Symbol('a'))Once)OneOrMore)(Symbol('b'))Once)(((Symbol('c'))ZeroOrMore)(Symbol('d'))Once)Or)Once)");
}

#[test]
fn alternation_is_wrapped_in_a_sequence() {
    assert_eq!(parse("a|b"), "((((Symbol('a'))Once)((Symbol('b'))Once)Or)Once)");
    assert_eq!(
        parse("a|b|c"),
        "((((Symbol('a'))Once)((Symbol('b'))Once)((Symbol('c'))Once)Or)Once)"
    );
}

#[test]
fn concatenation_is_the_root_itself() {
    assert_eq!(parse("a"), "((Symbol('a'))Once)");
    assert_eq!(parse("(a)"), "(((Symbol('a'))Once)Once)");
    assert_eq!(parse("(a|b)"), "(((((Symbol('a'))Once)((Symbol('b'))Once)Or)Once)Once)");
}

#[test]
fn wildcard_and_numbers_in_constructor_form() {
    assert_eq!(parse(".{10,}"), "(((Any)From(10))Once)");
    assert_eq!(parse("a{12,345}"), "(((Symbol('a'))Between(12, 345))Once)");
    assert_eq!(parse("a{0,}"), "(((Symbol('a'))From(0))Once)");
}

#[test]
fn quoted_characters_are_escaped() {
    assert_eq!(parse("'"), "((Symbol('\\''))Once)");
    assert_eq!(parse("\\"), "((Symbol('\\\\'))Once)");
    assert_eq!(parse("\""), "((Symbol('\"'))Once)");
    assert_eq!(parse("é"), "((Symbol('é'))Once)");
    assert_eq!(parse("[']"), "((Set([Char('\\'')]))Once)");
}

#[test]
fn blanks_in_a_pattern_are_ignored() {
    assert_eq!(parse("a\t|\nb\r"), parse("a|b"));
    assert_eq!(parse("(\ta\t)\t*"), parse("(a)*"));
}

#[test]
fn literal_brace_and_bracket() {
    assert_eq!(parse("a{"), "((Symbol('a'))(Symbol('{'))Once)");
    assert_eq!(parse("[]"), "((Symbol('['))(Symbol(']'))Once)");
}

#[test]
fn arena_holds_the_tree_and_nothing_else() {
    let ast = tree("ab");
    assert_eq!(ast.nodes.len(), 3);
    assert_eq!(ast.start_node, 2);
    assert_eq!(ast.nodes[2].children, vec![0, 1]);

    let ast = tree("ab|cd");
    assert_eq!(ast.nodes.len(), 8);
    assert_eq!(ast.start_node, 7);
    assert_eq!(ast.nodes[2].children, vec![0, 1]);
    assert_eq!(ast.nodes[5].children, vec![3, 4]);
    assert_eq!(ast.nodes[6].children, vec![2, 5]);
    assert_eq!(ast.nodes[7].children, vec![6]);

    let ast = tree("((a|b)c)*d");
    assert_eq!(ast.start_node, ast.nodes.len() - 1);
    let mut used = vec![0; ast.nodes.len()];
    for (index, node) in ast.nodes.iter().enumerate() {
        for child in &node.children {
            assert!(*child < index);
            used[*child] += 1;
        }
    }
    for (index, count) in used.iter().enumerate() {
        assert_eq!(*count, if index == ast.start_node { 0 } else { 1 });
    }
}

#[test]
fn lexer_stands_behind_the_pattern() {
    let mut lexer = Lexer::new("ab|c\t");
    assert!(parse_regex(&mut lexer).is_ok());
    assert_eq!(lexer.pos(), 4);
}

#[test]
fn lexer_stands_where_it_stood_after_a_failure() {
    for pattern in
        ["a)", "(a", "a{,0}", "ab{3,2}c", "[z-a]", "[/-9]", "(a{,0})", "x(a|b[/-9])y", "a|b{,0}", "|"]
    {
        let mut lexer = Lexer::new(pattern);
        assert!(parse_regex(&mut lexer).is_err());
        assert_eq!(lexer.pos(), 0);
    }
}

#[test]
fn fault_inside_the_text_leaves_the_lexer_where_it_stood() {
    let mut lexer = Lexer::new("ab(c[/-9])");
    lexer.seek(2);
    let error = parse_regex(&mut lexer).err().unwrap();
    assert_eq!(error.to_string(), "the start and end of a range must a alphanumeric");
    assert_eq!(lexer.pos(), 2);
    assert_eq!(parse_regex(&mut Lexer::new("[/-9]")).err().unwrap().to_string(), error.to_string());
}

#[test]
fn parse_may_start_inside_the_text() {
    let mut lexer = Lexer::new(")ab");
    lexer.seek(1);
    let ast = parse_regex(&mut lexer).unwrap();
    assert_eq!(ast.to_string(true), "((Symbol('a'))(Symbol('b'))Once)");
    let mut lexer = Lexer::new("ab)");
    lexer.seek(3);
    assert_eq!(parse_regex(&mut lexer).err().unwrap().to_string(), "expected parenthesis");
    assert_eq!(lexer.pos(), 3);
}

#[test]
fn nothing_to_parse() {
    assert_eq!(failure(""), "expected parenthesis");
    assert_eq!(failure("\t\n"), "expected parenthesis");
    assert_eq!(failure("*"), "expected parenthesis");
    assert_eq!(failure("|a"), "expected parenthesis");
    assert_eq!(failure(")"), "expected parenthesis");
}

#[test]
fn group_without_content() {
    assert_eq!(failure("("), "expected closing parenthesis");
    assert_eq!(failure("()"), "expected closing parenthesis");
    assert_eq!(failure("(|a)"), "expected closing parenthesis");
    assert_eq!(failure("(()"), "expected closing parenthesis");
}

#[test]
fn group_without_end() {
    assert_eq!(failure("(a"), "expected regex");
    assert_eq!(failure("(a|b"), "expected regex");
    assert_eq!(failure("(a|)"), "expected regex");
    assert_eq!(failure("((a)"), "expected regex");
}

#[test]
fn input_left_over() {
    assert_eq!(failure("a)"), "unknown symbol");
    assert_eq!(failure("a|"), "unknown symbol");
    assert_eq!(failure("a||b"), "unknown symbol");
    assert_eq!(failure("a**"), "unknown symbol");
    assert_eq!(failure("a+?"), "unknown symbol");
    assert_eq!(failure("a(b"), "unknown symbol");
}

#[test]
fn maximum_of_zero() {
    assert_eq!(failure("a{,0}"), "to must be greater than 0 in range");
    assert_eq!(failure("a{0,0}"), "to must be greater than 0 in range");
    assert_eq!(failure("(a){,0}"), "to must be greater than 0 in range");
}

#[test]
fn minimum_above_maximum() {
    assert_eq!(failure("a{3,2}"), "from must be lower or equal to to in range");
    assert_eq!(failure("a{1,0}"), "from must be lower or equal to to in range");
}

#[test]
fn bounds_that_are_not_valid_end_the_whole_parse() {
    assert_eq!(failure("a{,0}b"), "to must be greater than 0 in range");
    assert_eq!(failure("ab{,0}c"), "to must be greater than 0 in range");
    assert_eq!(failure("a|b{2,1}"), "from must be lower or equal to to in range");
    assert_eq!(failure("(a{,0})"), "to must be greater than 0 in range");
    assert_eq!(failure("x(a{,0})|y"), "to must be greater than 0 in range");
}

#[test]
fn range_with_bounds_in_the_wrong_order() {
    let message = "the numeric value of start must be less than end in a range";
    assert_eq!(failure("[z-a]"), message);
    assert_eq!(failure("[^9-0]"), message);
    assert_eq!(failure("x[a-cz-a]"), message);
}

#[test]
fn range_with_a_bound_outside_the_band() {
    let message = "the start and end of a range must a alphanumeric";
    assert_eq!(failure("[a-~]"), message);
    assert_eq!(failure("[ -a]"), message);
    assert_eq!(failure("[^/-9]"), message);
    assert_eq!(failure("[a-{]"), message);
    assert_eq!(failure("[é-z]"), message);
    assert_eq!(failure("[{-/]"), message);
}

#[test]
fn first_range_at_fault_gives_the_message() {
    assert_eq!(
        failure("[z-aa-~]"),
        "the numeric value of start must be less than end in a range"
    );
    assert_eq!(failure("[a-~z-a]"), "the start and end of a range must a alphanumeric");
}

#[test]
fn band_reaches_from_zero_to_small_z() {
    assert_eq!(parse("[0-z]"), "((Set([Range(48, 122)]))Once)");
    assert_eq!(parse("[a-a]"), "((Set([Range(97, 97)]))Once)");
    assert_eq!(parse("[:-@]"), "((Set([Range(58, 64)]))Once)");
    assert_eq!(parse("[~]"), "((Set([Char('~')]))Once)");
}

#[test]
fn plain_patterns_parse_when_they_are_written_out_regexes() {
    for pattern in ["a", "ab", "a|b", "(a)", "(a|b)c", "a(b(c))", "a|(b|c)d", ".", "(.)|a"] {
        assert!(parse_regex(&mut Lexer::new(pattern)).is_ok(), "{}", pattern);
    }
    for pattern in ["", "|", "a|", "|a", "a||b", "()", "(", ")", "(a", "a)", "(a|)", "(|a)", ")("] {
        assert!(parse_regex(&mut Lexer::new(pattern)).is_err(), "{}", pattern);
    }
}

#[test]
fn error_keeps_its_message() {
    assert_eq!(ParseError::new("unknown symbol").to_string(), "unknown symbol");
    assert_eq!(ParseError::new("").to_string(), "");
}

#[test]
fn kinds_as_plain_text() {
    assert_eq!(SyntaxType::ZeroOrMore.to_string(), "ZeroOrMore");
    assert_eq!(SyntaxType::Optional.to_string(), "Optional");
    assert_eq!(SyntaxType::OneOrMore.to_string(), "OneOrMore");
    assert_eq!(SyntaxType::Once.to_string(), "Once");
    assert_eq!(SyntaxType::Or.to_string(), "Or");
    assert_eq!(SyntaxType::From(2).to_string(), "From 2");
    assert_eq!(SyntaxType::To(30).to_string(), "To 30");
    assert_eq!(SyntaxType::Between(2, 105).to_string(), "Between 2 and 105");
    assert_eq!(SyntaxType::Symbol('x').to_string(), "Symbol x");
    assert_eq!(SyntaxType::Any.to_string(), "Any");
    assert_eq!(
        SyntaxType::InSet(vec![SetSymbol::Char('a'), SetSymbol::Range(98, 122)]).to_string(),
        "'a', '98'-'122'"
    );
    assert_eq!(SyntaxType::NotSet(vec![SetSymbol::Char('a')]).to_string(), "not 'a'");
    assert_eq!(SyntaxType::InSet(vec![]).to_string(), "");
}

#[test]
fn tree_as_a_flowchart() {
    let chart = tree("a|b").to_string(false);
    assert_eq!(
        chart,
        "```mermaid\nflowchart LR\n\t0(Symbol a)\n\t1(Once)\n\t1-->0\n\t2(Symbol b)\n\t3(Once)\n\t3-->2\n\t4(Or)\n\t4-->1\n\t4-->3\n\t5(Once)\n\t5-->4\n```\n"
    );
}
