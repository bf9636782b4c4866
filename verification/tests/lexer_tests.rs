use reginald_lib::lexer::{Lexer, SetSymbol, Token};

fn tokens(pattern: &str) -> Vec<Token> {
    let mut lexer = Lexer::new(pattern);
    let mut found = vec![];
    while let Some(token) = lexer.next() {
        found.push(token);
    }
    found
}

fn symbols(text: &str) -> Vec<Token> {
    text.chars().map(Token::Symbol).collect()
}

#[test]
fn lexer_test() {
    let mut lexer = Lexer::new("1(0)*+|a5{,2}{2,}{2,6}[ab-z][^ab-z].");
    let expected_tokens = [
        Token::Symbol('1'),
        Token::OpenParenthesis,
        Token::Symbol('0'),
        Token::CloseParenthesis,
        Token::ZeroOrMore,
        Token::OneOrMore,
        Token::Or,
        Token::Symbol('a'),
        Token::Symbol('5'),
        Token::To(2),
        Token::From(2),
        Token::Between(2, 6),
        Token::InSet(vec![SetSymbol::Char('a'), SetSymbol::Range('b' as u32, 'z' as u32)]),
        Token::NotSet(vec![SetSymbol::Char('a'), SetSymbol::Range('b' as u32, 'z' as u32)]),
    ];

    for expected in expected_tokens {
        assert_eq!(lexer.peek().unwrap(), expected);
        assert_eq!(lexer.next().unwrap(), expected);
    }
}

#[test]
fn every_simple_token() {
    assert_eq!(
        tokens("*?+|()."),
        vec![
            Token::ZeroOrMore,
            Token::Optional,
            Token::OneOrMore,
            Token::Or,
            Token::OpenParenthesis,
            Token::CloseParenthesis,
            Token::Any,
        ]
    );
}

#[test]
fn tab_return_and_line_feed_are_skipped() {
    assert_eq!(tokens("\ta\tb\r\nc\n"), symbols("abc"));
}

#[test]
fn space_is_a_literal() {
    assert_eq!(tokens("a b"), symbols("a b"));
}

#[test]
fn brace_forms() {
    assert_eq!(tokens("{2,}"), vec![Token::From(2)]);
    assert_eq!(tokens("{,3}"), vec![Token::To(3)]);
    assert_eq!(tokens("{2,3}"), vec![Token::Between(2, 3)]);
    assert_eq!(tokens("{\t2\t,\t3\t}"), vec![Token::Between(2, 3)]);
    assert_eq!(tokens("{\n,\r12\t}"), vec![Token::To(12)]);
    assert_eq!(tokens("{007,}"), vec![Token::From(7)]);
    assert_eq!(tokens("{0,0}"), vec![Token::Between(0, 0)]);
}

#[test]
fn brace_without_a_valid_form_is_a_literal() {
    assert_eq!(tokens("{"), symbols("{"));
    assert_eq!(tokens("{2"), symbols("{2"));
    assert_eq!(tokens("{2,"), symbols("{2,"));
    assert_eq!(tokens("{2,3"), symbols("{2,3"));
    assert_eq!(tokens("{,}"), symbols("{,}"));
    assert_eq!(tokens("{}"), symbols("{}"));
    assert_eq!(tokens("{ 2,3}"), symbols("{ 2,3}"));
    assert_eq!(tokens("{a,}"), symbols("{a,}"));
    assert_eq!(tokens("{2;3}"), symbols("{2;3}"));
}

#[test]
fn number_that_does_not_fit_is_no_bound() {
    let pattern = "{99999999999999999999999999999999999999999,}";
    assert_eq!(tokens(pattern), symbols(pattern));
    let largest = format!("{{{},}}", usize::MAX);
    assert_eq!(tokens(&largest), vec![Token::From(usize::MAX)]);
    let zeros = format!("{{0000000000000000000000000000000000{},}}", usize::MAX);
    assert_eq!(tokens(&zeros), vec![Token::From(usize::MAX)]);
}

#[test]
fn class_forms() {
    assert_eq!(tokens("[a]"), vec![Token::InSet(vec![SetSymbol::Char('a')])]);
    assert_eq!(tokens("[a-c]"), vec![Token::InSet(vec![SetSymbol::Range(97, 99)])]);
    assert_eq!(tokens("[^a-c]"), vec![Token::NotSet(vec![SetSymbol::Range(97, 99)])]);
    assert_eq!(
        tokens("[a-cx0-9]"),
        vec![Token::InSet(vec![
            SetSymbol::Range(97, 99),
            SetSymbol::Char('x'),
            SetSymbol::Range(48, 57),
        ])]
    );
    assert_eq!(tokens("[\ta\t-\tz\t]"), vec![Token::InSet(vec![SetSymbol::Range(97, 122)])]);
    assert_eq!(tokens("[\t^\ta]"), vec![Token::NotSet(vec![SetSymbol::Char('a')])]);
    assert_eq!(
        tokens("[a^]"),
        vec![Token::InSet(vec![SetSymbol::Char('a'), SetSymbol::Char('^')])]
    );
    assert_eq!(tokens("[^^]"), vec![Token::NotSet(vec![SetSymbol::Char('^')])]);
    assert_eq!(tokens("[[]"), vec![Token::InSet(vec![SetSymbol::Char('[')])]);
    assert_eq!(tokens("[ ]"), vec![Token::InSet(vec![SetSymbol::Char(' ')])]);
}

#[test]
fn caret_alone_is_a_member() {
    assert_eq!(tokens("[^]"), vec![Token::InSet(vec![SetSymbol::Char('^')])]);
}

#[test]
fn caret_may_start_a_range() {
    assert_eq!(tokens("[^-a]"), vec![Token::InSet(vec![SetSymbol::Range(94, 97)])]);
}

#[test]
fn class_without_members_is_a_literal() {
    assert_eq!(tokens("[]"), symbols("[]"));
    assert_eq!(tokens("[\t]"), symbols("[]"));
}

#[test]
fn dash_without_a_member_on_a_side_is_no_class() {
    assert_eq!(tokens("[-a]"), symbols("[-a]"));
    assert_eq!(tokens("[a-]"), symbols("[a-]"));
    assert_eq!(tokens("[a-]]"), symbols("[a-]]"));
    assert_eq!(tokens("[a--b]"), symbols("[a--b]"));
    assert_eq!(tokens("[a-c-e]"), symbols("[a-c-e]"));
    assert_eq!(tokens("[^-]"), symbols("[^-]"));
    assert_eq!(tokens("[a-"), symbols("[a-"));
}

#[test]
fn class_without_an_end_is_a_literal() {
    assert_eq!(tokens("[abc"), symbols("[abc"));
    assert_eq!(tokens("[^abc"), symbols("[^abc"));
    assert_eq!(tokens("["), symbols("["));
}

#[test]
fn peek_does_not_consume() {
    let mut lexer = Lexer::new("ab");
    assert_eq!(lexer.pos(), 0);
    assert_eq!(lexer.peek(), Some(Token::Symbol('a')));
    assert_eq!(lexer.peek(), Some(Token::Symbol('a')));
    assert_eq!(lexer.pos(), 0);
    assert_eq!(lexer.next(), Some(Token::Symbol('a')));
    assert_eq!(lexer.pos(), 1);
    assert_eq!(lexer.peek(), Some(Token::Symbol('b')));
    assert_eq!(lexer.pos(), 1);
}

#[test]
fn seek_goes_back_and_forth() {
    let mut lexer = Lexer::new("a{2,3}b");
    assert_eq!(lexer.next(), Some(Token::Symbol('a')));
    let mark = lexer.pos();
    assert_eq!(mark, 1);
    assert_eq!(lexer.next(), Some(Token::Between(2, 3)));
    assert_eq!(lexer.pos(), 6);
    assert_eq!(lexer.next(), Some(Token::Symbol('b')));
    lexer.seek(mark);
    assert_eq!(lexer.pos(), 1);
    assert_eq!(lexer.next(), Some(Token::Between(2, 3)));
    lexer.seek(2);
    assert_eq!(lexer.next(), Some(Token::Symbol('2')));
}

#[test]
fn position_behind_a_token_skips_leading_blanks_only() {
    let mut lexer = Lexer::new("\ta\tb");
    assert_eq!(lexer.next(), Some(Token::Symbol('a')));
    assert_eq!(lexer.pos(), 2);
    assert_eq!(lexer.next(), Some(Token::Symbol('b')));
    assert_eq!(lexer.pos(), 4);
}

#[test]
fn used_up_text_gives_no_token_again_and_again() {
    let mut lexer = Lexer::new("a\t\n");
    assert_eq!(lexer.next(), Some(Token::Symbol('a')));
    assert_eq!(lexer.next(), None);
    let end = lexer.pos();
    assert_eq!(end, 3);
    assert_eq!(lexer.next(), None);
    assert_eq!(lexer.peek(), None);
    assert_eq!(lexer.next(), None);
    assert_eq!(lexer.pos(), end);
}

#[test]
fn empty_text_has_no_token() {
    let mut lexer = Lexer::new("");
    assert_eq!(lexer.peek(), None);
    assert_eq!(lexer.next(), None);
    assert_eq!(lexer.pos(), 0);
}

#[test]
fn seek_behind_the_end_gives_no_token() {
    let mut lexer = Lexer::new("ab");
    lexer.seek(100);
    assert_eq!(lexer.peek(), None);
    assert_eq!(lexer.next(), None);
    assert_eq!(lexer.pos(), 100);
    lexer.seek(usize::MAX);
    assert_eq!(lexer.next(), None);
    assert_eq!(lexer.pos(), usize::MAX);
}

#[test]
fn characters_beyond_ascii_are_symbols() {
    assert_eq!(tokens("é\tß"), symbols("éß"));
    assert_eq!(tokens("[é]"), vec![Token::InSet(vec![SetSymbol::Char('é')])]);
}

#[test]
fn set_symbol_as_text() {
    assert_eq!(SetSymbol::Char('a').to_string(), "'a'");
    assert_eq!(SetSymbol::Range(98, 122).to_string(), "'98'-'122'");
    assert_eq!(SetSymbol::Range(0, 4294967295).to_string(), "'0'-'4294967295'");
}
