//! The tokenizer: pattern text to tokens, with peeking and seeking.
//!
//! The grammar of tokens is given by spec functions on the pattern's characters and a
//! position; [`next_token`] is the entry point. The executable [`Lexer`] is proved to
//! return exactly what those functions say.

use crate::render::{joined, members_text, set_symbol_text};
use crate::text::{push_decimal, push_string, string_of};
use vstd::prelude::*;

verus! {

/// One member of a character class.
#[derive(Debug, PartialEq, Clone, Copy)]
pub enum SetSymbol {
    /// A single character.
    Char(char),
    /// All characters whose ordinal lies between the two bounds, both included.
    Range(u32, u32),
}

impl SetSymbol {
    /// The member as text: a character between quotes, or the ordinals of the two
    /// bounds of a range, each between quotes, with a dash between them.
    pub fn to_string(&self) -> (text: String)
        ensures
            text@ == set_symbol_text(*self),
    {
        let mut out: Vec<char> = Vec::new();
        self.push_text(&mut out);
        string_of(&out)
    }

    fn push_text(&self, out: &mut Vec<char>)
        ensures
            final(out)@ == old(out)@ + set_symbol_text(*self),
    {
        match self {
            SetSymbol::Char(c) => {
                push_string("'", out);
                out.push(*c);
                push_string("'", out);
                proof {
                    assert(out@ =~= old(out)@ + set_symbol_text(*self));
                }
            },
            SetSymbol::Range(start, end) => {
                push_string("'", out);
                push_decimal(*start as usize, out);
                push_string("'-'", out);
                push_decimal(*end as usize, out);
                push_string("'", out);
                proof {
                    assert(out@ =~= old(out)@ + set_symbol_text(*self));
                }
            },
        }
    }
}

/// Appends the members of a class, separated by a comma and a space.
pub(crate) fn push_members(set: &Vec<SetSymbol>, out: &mut Vec<char>)
    ensures
        final(out)@ == old(out)@ + members_text(set@),
{
    let ghost parts = set@.map_values(|m: SetSymbol| set_symbol_text(m));
    let mut i: usize = 0;
    proof {
        assert(parts.take(0) =~= Seq::<Seq<char>>::empty());
        assert(out@ =~= old(out)@ + joined(parts.take(0), ", "@));
    }
    while i < set.len()
        invariant
            i <= set.len(),
            parts == set@.map_values(|m: SetSymbol| set_symbol_text(m)),
            out@ == old(out)@ + joined(parts.take(i as int), ", "@),
        decreases set.len() - i,
    {
        if i > 0 {
            push_string(", ", out);
        }
        set[i].push_text(out);
        proof {
            assert(parts.take(i + 1).drop_last() =~= parts.take(i as int));
            assert(parts.take(i + 1).last() == set_symbol_text(set@[i as int]));
            assert(out@ =~= old(out)@ + joined(parts.take(i + 1), ", "@));
        }
        i += 1;
    }
    proof {
        assert(parts.take(set.len() as int) =~= parts);
    }
}

/// One lexical unit of a pattern.
#[derive(Debug, PartialEq, Clone)]
pub enum Token {
    /// `*`
    ZeroOrMore,
    /// `?`
    Optional,
    /// `+`
    OneOrMore,
    /// `|`
    Or,
    /// `(`
    OpenParenthesis,
    /// `)`
    CloseParenthesis,
    /// `{min,}`
    From(usize),
    /// `{,max}`
    To(usize),
    /// `{min,max}`
    Between(usize, usize),
    /// A literal character.
    Symbol(char),
    /// `[...]`: a class, with its members.
    InSet(Vec<SetSymbol>),
    /// `[^...]`: a negated class, with its members.
    NotSet(Vec<SetSymbol>),
    /// `.`
    Any,
}

/// The mathematical value of a [`Token`]: class members are a sequence.
pub enum TokenView {
    ZeroOrMore,
    Optional,
    OneOrMore,
    Or,
    OpenParenthesis,
    CloseParenthesis,
    From(usize),
    To(usize),
    Between(usize, usize),
    Symbol(char),
    InSet(Seq<SetSymbol>),
    NotSet(Seq<SetSymbol>),
    Any,
}

impl View for Token {
    type V = TokenView;

    open spec fn view(&self) -> TokenView {
        match *self {
            Token::ZeroOrMore => TokenView::ZeroOrMore,
            Token::Optional => TokenView::Optional,
            Token::OneOrMore => TokenView::OneOrMore,
            Token::Or => TokenView::Or,
            Token::OpenParenthesis => TokenView::OpenParenthesis,
            Token::CloseParenthesis => TokenView::CloseParenthesis,
            Token::From(min) => TokenView::From(min),
            Token::To(max) => TokenView::To(max),
            Token::Between(min, max) => TokenView::Between(min, max),
            Token::Symbol(c) => TokenView::Symbol(c),
            Token::InSet(members) => TokenView::InSet(members@),
            Token::NotSet(members) => TokenView::NotSet(members@),
            Token::Any => TokenView::Any,
        }
    }
}

/// The value of an optional token.
pub open spec fn token_view(token: Option<Token>) -> Option<TokenView> {
    match token {
        Some(t) => Some(t@),
        None => None,
    }
}

/// Tab, carriage return and line feed carry no meaning in a pattern. The space
/// character is not among them.
pub open spec fn is_blank(c: char) -> bool {
    c == '\t' || c == '\r' || c == '\n'
}

/// The first position at or after `pos` that holds no blank.
pub open spec fn skip_blanks(text: Seq<char>, pos: int) -> int
    decreases text.len() - pos,
{
    if 0 <= pos < text.len() && is_blank(text[pos]) {
        skip_blanks(text, pos + 1)
    } else {
        pos
    }
}

/// Whether `c` is a decimal digit.
pub open spec fn is_digit(c: char) -> bool {
    '0' <= c <= '9'
}

/// The end of the run of decimal digits that starts at `pos`.
pub open spec fn digits_end(text: Seq<char>, pos: int) -> int
    decreases text.len() - pos,
{
    if 0 <= pos < text.len() && is_digit(text[pos]) {
        digits_end(text, pos + 1)
    } else {
        pos
    }
}

/// The number that a decimal digit stands for.
pub open spec fn digit_value(c: char) -> nat {
    (c as int - '0' as int) as nat
}

/// The number that a string of decimal digits denotes.
pub open spec fn decimal_value(digits: Seq<char>) -> nat
    decreases digits.len(),
{
    if digits.len() == 0 {
        0
    } else {
        decimal_value(digits.drop_last()) * 10 + digit_value(digits.last())
    }
}

/// An unsigned decimal number after optional blanks: its value and the position
/// behind it. There is none where no digit stands, or where the value does not fit
/// a `usize`.
pub open spec fn number_at(text: Seq<char>, pos: int) -> Option<(usize, int)> {
    let start = skip_blanks(text, pos);
    let end = digits_end(text, start);
    let value = decimal_value(text.subrange(start, end));
    if start < end && value <= usize::MAX {
        Some((value as usize, end))
    } else {
        None
    }
}

/// The position behind the character `mark`, where it is the next one after
/// optional blanks.
pub open spec fn mark_at(text: Seq<char>, pos: int, mark: char) -> Option<int> {
    let p = skip_blanks(text, pos);
    if 0 <= p < text.len() && text[p] == mark {
        Some(p + 1)
    } else {
        None
    }
}

/// `min,}` behind an opening brace.
pub open spec fn from_at(text: Seq<char>, pos: int) -> Option<(TokenView, int)> {
    match number_at(text, pos) {
        Some((min, p1)) => match mark_at(text, p1, ',') {
            Some(p2) => match mark_at(text, p2, '}') {
                Some(p3) => Some((TokenView::From(min), p3)),
                None => None,
            },
            None => None,
        },
        None => None,
    }
}

/// `,max}` behind an opening brace.
pub open spec fn to_at(text: Seq<char>, pos: int) -> Option<(TokenView, int)> {
    match mark_at(text, pos, ',') {
        Some(p1) => match number_at(text, p1) {
            Some((max, p2)) => match mark_at(text, p2, '}') {
                Some(p3) => Some((TokenView::To(max), p3)),
                None => None,
            },
            None => None,
        },
        None => None,
    }
}

/// `min,max}` behind an opening brace.
pub open spec fn between_at(text: Seq<char>, pos: int) -> Option<(TokenView, int)> {
    match number_at(text, pos) {
        Some((min, p1)) => match mark_at(text, p1, ',') {
            Some(p2) => match number_at(text, p2) {
                Some((max, p3)) => match mark_at(text, p3, '}') {
                    Some(p4) => Some((TokenView::Between(min, max), p4)),
                    None => None,
                },
                None => None,
            },
            None => None,
        },
        None => None,
    }
}

/// The three bounded-repetition forms, tried in this order.
pub open spec fn repetition_at(text: Seq<char>, pos: int) -> Option<(TokenView, int)> {
    if from_at(text, pos) is Some {
        from_at(text, pos)
    } else if to_at(text, pos) is Some {
        to_at(text, pos)
    } else {
        between_at(text, pos)
    }
}

/// One class member at `pos`, which holds a character that is neither a blank nor
/// the closing bracket: a bare character, or a range where a `-` and a second
/// character follow. A `-` that has no character before it or behind it makes the
/// member, and with it the class, invalid.
pub open spec fn member_at(text: Seq<char>, pos: int) -> Option<(SetSymbol, int)> {
    let first = text[pos];
    let dash = skip_blanks(text, pos + 1);
    if first == '-' {
        None
    } else if 0 <= dash < text.len() && text[dash] == '-' {
        let last = skip_blanks(text, dash + 1);
        if 0 <= last < text.len() && text[last] != '-' && text[last] != ']' {
            Some((SetSymbol::Range(first as u32, text[last] as u32), last + 1))
        } else {
            None
        }
    } else {
        Some((SetSymbol::Char(first), pos + 1))
    }
}

/// The members of a class up to its closing bracket, and the position behind the
/// bracket.
pub open spec fn members_at(text: Seq<char>, pos: int) -> Option<(Seq<SetSymbol>, int)>
    decreases text.len() - pos,
{
    let p = skip_blanks(text, pos);
    if 0 <= p < text.len() {
        if text[p] == ']' {
            Some((Seq::empty(), p + 1))
        } else {
            match member_at(text, p) {
                Some((member, next)) => {
                    proof {
                        lemma_skip_blanks(text, pos);
                        lemma_member_at(text, p);
                    }
                    match members_at(text, next) {
                        Some((rest, end)) => Some((seq![member] + rest, end)),
                        None => None,
                    }
                },
                None => None,
            }
        }
    } else {
        None
    }
}

/// A class behind an opening bracket: one member at least.
pub open spec fn set_at(text: Seq<char>, pos: int) -> Option<(TokenView, int)> {
    match members_at(text, pos) {
        Some((members, end)) => if members.len() > 0 {
            Some((TokenView::InSet(members), end))
        } else {
            None
        },
        None => None,
    }
}

/// A negated class behind an opening bracket: `^`, then one member at least.
pub open spec fn not_set_at(text: Seq<char>, pos: int) -> Option<(TokenView, int)> {
    match mark_at(text, pos, '^') {
        Some(p) => match members_at(text, p) {
            Some((members, end)) => if members.len() > 0 {
                Some((TokenView::NotSet(members), end))
            } else {
                None
            },
            None => None,
        },
        None => None,
    }
}

/// The two class forms: the negated one is tried first.
pub open spec fn class_at(text: Seq<char>, pos: int) -> Option<(TokenView, int)> {
    if not_set_at(text, pos) is Some {
        not_set_at(text, pos)
    } else {
        set_at(text, pos)
    }
}

/// The token that a single character stands for.
pub open spec fn simple_token(c: char) -> TokenView {
    if c == '*' {
        TokenView::ZeroOrMore
    } else if c == '?' {
        TokenView::Optional
    } else if c == '+' {
        TokenView::OneOrMore
    } else if c == '|' {
        TokenView::Or
    } else if c == '(' {
        TokenView::OpenParenthesis
    } else if c == ')' {
        TokenView::CloseParenthesis
    } else if c == '.' {
        TokenView::Any
    } else {
        TokenView::Symbol(c)
    }
}

/// The token that starts at the first non-blank character at or after `pos`, and
/// the position behind it. A brace or a bracket that opens no valid repetition or
/// class is a literal symbol. Where the text is used up there is no token, and the
/// position behind the blanks is returned.
pub open spec fn next_token(text: Seq<char>, pos: int) -> (Option<TokenView>, int) {
    let p = skip_blanks(text, pos);
    if 0 <= p < text.len() {
        let c = text[p];
        if c == '{' && repetition_at(text, p + 1) is Some {
            let (token, end) = repetition_at(text, p + 1)->0;
            (Some(token), end)
        } else if c == '[' && class_at(text, p + 1) is Some {
            let (token, end) = class_at(text, p + 1)->0;
            (Some(token), end)
        } else {
            (Some(simple_token(c)), p + 1)
        }
    } else {
        (None, p)
    }
}

/// `skip_blanks` never moves backwards, stops inside the text or where it
/// started, and stops on a character that is no blank.
pub proof fn lemma_skip_blanks(text: Seq<char>, pos: int)
    ensures
        pos <= skip_blanks(text, pos),
        0 <= pos <= text.len() ==> skip_blanks(text, pos) <= text.len(),
        skip_blanks(text, skip_blanks(text, pos)) == skip_blanks(text, pos),
        0 <= skip_blanks(text, pos) < text.len() ==> !is_blank(text[skip_blanks(text, pos)]),
    decreases text.len() - pos,
{
    if 0 <= pos < text.len() && is_blank(text[pos]) {
        lemma_skip_blanks(text, pos + 1);
    }
}

/// A member ends behind its start and inside the text.
pub proof fn lemma_member_at(text: Seq<char>, pos: int)
    requires
        0 <= pos < text.len(),
    ensures
        member_at(text, pos) matches Some((_, next)) ==> pos < next <= text.len(),
{
    lemma_skip_blanks(text, pos + 1);
    lemma_skip_blanks(text, skip_blanks(text, pos + 1) + 1);
}

/// A run of digits ends at or behind its start and inside the text.
pub proof fn lemma_digits_end(text: Seq<char>, pos: int)
    ensures
        pos <= digits_end(text, pos),
        0 <= pos <= text.len() ==> digits_end(text, pos) <= text.len(),
    decreases text.len() - pos,
{
    if 0 <= pos < text.len() && is_digit(text[pos]) {
        lemma_digits_end(text, pos + 1);
    }
}

/// A number ends behind its start and inside the text.
pub proof fn lemma_number_at(text: Seq<char>, pos: int)
    requires
        0 <= pos,
    ensures
        number_at(text, pos) matches Some((_, end)) ==> pos < end <= text.len(),
{
    lemma_skip_blanks(text, pos);
    lemma_digits_end(text, skip_blanks(text, pos));
}

/// A mark ends behind its start and inside the text.
pub proof fn lemma_mark_at(text: Seq<char>, pos: int, mark: char)
    requires
        0 <= pos,
    ensures
        mark_at(text, pos, mark) matches Some(end) ==> pos < end <= text.len(),
{
    lemma_skip_blanks(text, pos);
}

/// The members of a class end behind their start and inside the text.
pub proof fn lemma_members_at(text: Seq<char>, pos: int)
    requires
        0 <= pos,
    ensures
        members_at(text, pos) matches Some((_, end)) ==> pos < end <= text.len(),
    decreases text.len() - pos,
{
    lemma_skip_blanks(text, pos);
    let p = skip_blanks(text, pos);
    if 0 <= p < text.len() && text[p] != ']' {
        lemma_member_at(text, p);
        if let Some((_, next)) = member_at(text, p) {
            lemma_members_at(text, next);
        }
    }
}

/// A token ends behind its start and inside the text.
pub proof fn lemma_next_token(text: Seq<char>, pos: int)
    ensures
        next_token(text, pos).0 is Some ==> 0 <= pos < next_token(text, pos).1 <= text.len(),
        next_token(text, pos).0 is None ==> next_token(text, pos).1 == skip_blanks(text, pos),
{
    lemma_skip_blanks(text, pos);
    let p = skip_blanks(text, pos);
    if 0 <= p < text.len() {
        lemma_number_at(text, p + 1);
        lemma_mark_at(text, p + 1, ',');
        lemma_mark_at(text, p + 1, '^');
        lemma_members_at(text, p + 1);
        if let Some((_, p1)) = number_at(text, p + 1) {
            lemma_mark_at(text, p1, ',');
            if let Some(p2) = mark_at(text, p1, ',') {
                lemma_mark_at(text, p2, '}');
                lemma_number_at(text, p2);
                if let Some((_, p3)) = number_at(text, p2) {
                    lemma_mark_at(text, p3, '}');
                }
            }
        }
        if let Some(p1) = mark_at(text, p + 1, ',') {
            lemma_number_at(text, p1);
            if let Some((_, p2)) = number_at(text, p1) {
                lemma_mark_at(text, p2, '}');
            }
        }
        if let Some(p1) = mark_at(text, p + 1, '^') {
            lemma_members_at(text, p1);
        }
    }
}

/// The value of a prefix of a digit string is at most that of the whole.
proof fn lemma_decimal_value_push(digits: Seq<char>, c: char)
    ensures
        decimal_value(digits.push(c)) == decimal_value(digits) * 10 + digit_value(c),
{
    assert(digits.push(c).drop_last() =~= digits);
}

/// A tokenizer over the characters of a pattern.
pub struct Lexer {
    data: Vec<char>,
    index: usize,
}

/// What a [`Lexer`] stands for: the pattern's characters and the position of the
/// next character to read. The position may lie behind the end of the text.
pub struct LexerView {
    pub text: Seq<char>,
    pub pos: int,
}

impl View for Lexer {
    type V = LexerView;

    closed spec fn view(&self) -> LexerView {
        LexerView { text: self.data@, pos: self.index as int }
    }
}

/// Collects the characters of a string slice.
pub fn chars_of(text: &str) -> (chars: Vec<char>)
    ensures
        chars@ == text@,
{
    let mut chars: Vec<char> = Vec::new();
    for c in it: text.chars()
        invariant
            it.seq() == text@,
            chars@ == text@.take(it.index()),
    {
        chars.push(c);
    }
    chars
}

fn is_blank_char(c: char) -> (b: bool)
    ensures
        b == is_blank(c),
{
    c == '\t' || c == '\r' || c == '\n'
}

fn is_digit_char(c: char) -> (b: bool)
    ensures
        b == is_digit(c),
{
    '0' <= c && c <= '9'
}

fn simple_token_of(c: char) -> (token: Token)
    ensures
        token@ == simple_token(c),
{
    if c == '*' {
        Token::ZeroOrMore
    } else if c == '?' {
        Token::Optional
    } else if c == '+' {
        Token::OneOrMore
    } else if c == '|' {
        Token::Or
    } else if c == '(' {
        Token::OpenParenthesis
    } else if c == ')' {
        Token::CloseParenthesis
    } else if c == '.' {
        Token::Any
    } else {
        Token::Symbol(c)
    }
}

impl Lexer {
    /// A lexer at the start of `data`.
    pub fn new(data: &str) -> (lexer: Lexer)
        ensures
            lexer@.text == data@,
            lexer@.pos == 0,
    {
        Lexer { data: chars_of(data), index: 0 }
    }

    /// The position of the next character to read.
    pub fn pos(&self) -> (pos: usize)
        ensures
            pos == self@.pos,
    {
        self.index
    }

    /// Moves to an absolute position, which may be any number.
    pub fn seek(&mut self, pos: usize)
        ensures
            final(self)@.text == old(self)@.text,
            final(self)@.pos == pos,
    {
        self.index = pos;
    }

    /// The next token, which is not consumed.
    pub fn peek(&mut self) -> (token: Option<Token>)
        ensures
            final(self)@ == old(self)@,
            token_view(token) == next_token(old(self)@.text, old(self)@.pos).0,
    {
        let prev_index = self.index;
        let token = self.parse_next();
        self.index = prev_index;
        token
    }

    /// Reads the next token. Once the text is used up there is none, however often
    /// this is called.
    pub fn next(&mut self) -> (token: Option<Token>)
        ensures
            final(self)@.text == old(self)@.text,
            (token_view(token), final(self)@.pos) == next_token(old(self)@.text, old(self)@.pos),
    {
        self.parse_next()
    }

    fn parse_next(&mut self) -> (token: Option<Token>)
        ensures
            final(self)@.text == old(self)@.text,
            (token_view(token), final(self)@.pos) == next_token(old(self)@.text, old(self)@.pos),
    {
        self.consume_whitespace();
        if self.index < self.data.len() {
            let c = self.data[self.index];
            self.index += 1;
            if c == '{' {
                if let Some(token) = self.parse_from() {
                    return Some(token);
                }
                if let Some(token) = self.parse_to() {
                    return Some(token);
                }
                if let Some(token) = self.parse_between() {
                    return Some(token);
                }
            }
            if c == '[' {
                if let Some(token) = self.parse_not_set() {
                    return Some(token);
                }
                if let Some(token) = self.parse_set() {
                    return Some(token);
                }
            }
            Some(simple_token_of(c))
        } else {
            None
        }
    }

    fn consume_whitespace(&mut self)
        ensures
            final(self)@.text == old(self)@.text,
            final(self)@.pos == skip_blanks(old(self)@.text, old(self)@.pos),
    {
        while self.index < self.data.len() && is_blank_char(self.data[self.index])
            invariant
                self.data@ == old(self).data@,
                skip_blanks(self.data@, self.index as int) == skip_blanks(
                    old(self).data@,
                    old(self).index as int,
                ),
            decreases self.data.len() - self.index,
        {
            self.index += 1;
        }
    }

    /// Reads the character `mark` behind optional blanks, or nothing.
    fn accept(&mut self, mark: char) -> (found: bool)
        ensures
            final(self)@.text == old(self)@.text,
            match mark_at(old(self)@.text, old(self)@.pos, mark) {
                Some(end) => found && final(self)@.pos == end,
                None => !found && final(self)@.pos == old(self)@.pos,
            },
    {
        let fallback = self.index;
        self.consume_whitespace();
        if self.index < self.data.len() && self.data[self.index] == mark {
            self.index += 1;
            true
        } else {
            self.index = fallback;
            false
        }
    }

    fn parse_number(&mut self) -> (number: Option<usize>)
        ensures
            final(self)@.text == old(self)@.text,
            match number_at(old(self)@.text, old(self)@.pos) {
                Some((value, end)) => number == Some(value) && final(self)@.pos == end,
                None => number is None && final(self)@.pos == old(self)@.pos,
            },
    {
        let fallback = self.index;
        self.consume_whitespace();
        if self.index >= self.data.len() {
            self.index = fallback;
            return None;
        }
        let start = self.index;
        let mut value: usize = 0;
        let mut fits = true;
        proof {
            assert(self.data@.subrange(start as int, start as int) =~= Seq::<char>::empty());
        }
        while self.index < self.data.len() && is_digit_char(self.data[self.index])
            invariant
                self.data@ == old(self).data@,
                start <= self.index <= self.data.len(),
                digits_end(self.data@, self.index as int) == digits_end(self.data@, start as int),
                fits ==> value == decimal_value(
                    self.data@.subrange(start as int, self.index as int),
                ),
                !fits ==> decimal_value(self.data@.subrange(start as int, self.index as int))
                    > usize::MAX,
            decreases self.data.len() - self.index,
        {
            let c = self.data[self.index];
            let digit: usize = (c as u32 - '0' as u32) as usize;
            proof {
                let before = self.data@.subrange(start as int, self.index as int);
                assert(self.data@.subrange(start as int, self.index as int + 1) =~= before.push(c));
                lemma_decimal_value_push(before, c);
            }
            if fits {
                if value > (usize::MAX - digit) / 10 {
                    fits = false;
                } else {
                    value = value * 10 + digit;
                }
            }
            self.index += 1;
        }
        if self.index == start || !fits {
            self.index = fallback;
            None
        } else {
            Some(value)
        }
    }

    fn parse_from(&mut self) -> (token: Option<Token>)
        ensures
            final(self)@.text == old(self)@.text,
            match from_at(old(self)@.text, old(self)@.pos) {
                Some((t, end)) => token_view(token) == Some(t) && final(self)@.pos == end,
                None => token is None && final(self)@.pos == old(self)@.pos,
            },
    {
        let fallback = self.index;
        if let Some(min) = self.parse_number() {
            if self.accept(',') {
                if self.accept('}') {
                    return Some(Token::From(min));
                }
            }
        }
        self.index = fallback;
        None
    }

    fn parse_to(&mut self) -> (token: Option<Token>)
        ensures
            final(self)@.text == old(self)@.text,
            match to_at(old(self)@.text, old(self)@.pos) {
                Some((t, end)) => token_view(token) == Some(t) && final(self)@.pos == end,
                None => token is None && final(self)@.pos == old(self)@.pos,
            },
    {
        let fallback = self.index;
        if self.accept(',') {
            if let Some(max) = self.parse_number() {
                if self.accept('}') {
                    return Some(Token::To(max));
                }
            }
        }
        self.index = fallback;
        None
    }

    fn parse_between(&mut self) -> (token: Option<Token>)
        ensures
            final(self)@.text == old(self)@.text,
            match between_at(old(self)@.text, old(self)@.pos) {
                Some((t, end)) => token_view(token) == Some(t) && final(self)@.pos == end,
                None => token is None && final(self)@.pos == old(self)@.pos,
            },
    {
        let fallback = self.index;
        if let Some(min) = self.parse_number() {
            if self.accept(',') {
                if let Some(max) = self.parse_number() {
                    if self.accept('}') {
                        return Some(Token::Between(min, max));
                    }
                }
            }
        }
        self.index = fallback;
        None
    }

    /// Reads the members of a class and its closing bracket.
    fn parse_members(&mut self) -> (members: Option<Vec<SetSymbol>>)
        ensures
            final(self)@.text == old(self)@.text,
            match members_at(old(self)@.text, old(self)@.pos) {
                Some((m, end)) => members matches Some(v) && v@ == m && final(self)@.pos == end,
                None => members is None && final(self)@.pos == old(self)@.pos,
            },
    {
        let fallback = self.index;
        let mut data: Vec<SetSymbol> = Vec::new();
        loop
            invariant
                self.data@ == old(self).data@,
                fallback == old(self).index,
                members_at(self.data@, fallback as int) == match members_at(
                    self.data@,
                    self.index as int,
                ) {
                    Some((rest, end)) => Some((data@ + rest, end)),
                    None => None,
                },
            decreases self.data.len() - self.index,
        {
            let ghost before = self.index as int;
            self.consume_whitespace();
            proof {
                lemma_skip_blanks(self.data@, before);
            }
            if self.index >= self.data.len() {
                self.index = fallback;
                return None;
            }
            let first = self.data[self.index];
            if first == ']' {
                self.index += 1;
                proof {
                    assert(data@ + Seq::<SetSymbol>::empty() =~= data@);
                }
                return Some(data);
            }
            if first == '-' {
                self.index = fallback;
                return None;
            }
            let ghost at = self.index as int;
            proof {
                lemma_member_at(self.data@, at);
            }
            self.index += 1;
            if self.accept('-') {
                self.consume_whitespace();
                if self.index < self.data.len() && self.data[self.index] != '-'
                    && self.data[self.index] != ']' {
                    let last = self.data[self.index];
                    data.push(SetSymbol::Range(first as u32, last as u32));
                    self.index += 1;
                } else {
                    self.index = fallback;
                    return None;
                }
            } else {
                data.push(SetSymbol::Char(first));
            }
            proof {
                let (member, next) = member_at(self.data@, at)->0;
                assert(next == self.index);
                assert(data@.last() == member);
                match members_at(self.data@, self.index as int) {
                    Some((rest, end)) => {
                        assert((data@.drop_last() + (seq![member] + rest)) =~= data@ + rest);
                    },
                    None => {},
                }
            }
        }
    }

    fn parse_set(&mut self) -> (token: Option<Token>)
        ensures
            final(self)@.text == old(self)@.text,
            match set_at(old(self)@.text, old(self)@.pos) {
                Some((t, end)) => token_view(token) == Some(t) && final(self)@.pos == end,
                None => token is None && final(self)@.pos == old(self)@.pos,
            },
    {
        let fallback = self.index;
        if let Some(members) = self.parse_members() {
            if members.len() > 0 {
                return Some(Token::InSet(members));
            }
        }
        self.index = fallback;
        None
    }

    fn parse_not_set(&mut self) -> (token: Option<Token>)
        ensures
            final(self)@.text == old(self)@.text,
            match not_set_at(old(self)@.text, old(self)@.pos) {
                Some((t, end)) => token_view(token) == Some(t) && final(self)@.pos == end,
                None => token is None && final(self)@.pos == old(self)@.pos,
            },
    {
        let fallback = self.index;
        if self.accept('^') {
            if let Some(members) = self.parse_members() {
                if members.len() > 0 {
                    return Some(Token::NotSet(members));
                }
            }
        }
        self.index = fallback;
        None
    }
}

} // verus!
