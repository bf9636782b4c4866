//! Patterns without classes and quantifiers: which of them are patterns of the
//! grammar, said without the parser, and the proof that the parser accepts exactly
//! those.

use crate::grammar::{
    alternation_at, atom_at, branches_at, concat_at, group_at, lemma_concat_at, lemma_value_at,
    onward, parse_at, regex_at, symbol_at, value_at, values_at, Parsed,
};
use crate::lexer::{lemma_next_token, next_token, TokenView};
use crate::syntax::{SyntaxKind, Tree};
use vstd::prelude::*;

verus! {

/// The tokens of the text from `pos` on.
pub open spec fn tokens_from(text: Seq<char>, pos: int) -> Seq<TokenView>
    decreases text.len() - pos,
{
    let (token, end) = next_token(text, pos);
    match token {
        Some(t) => {
            proof {
                lemma_next_token(text, pos);
            }
            seq![t] + tokens_from(text, end)
        },
        None => Seq::empty(),
    }
}

/// Whether a token is a literal, the wildcard, a parenthesis or the alternation
/// mark: neither a class nor a quantifier.
pub open spec fn plain_token(token: TokenView) -> bool {
    token is Symbol || token is Any || token is OpenParenthesis || token is CloseParenthesis
        || token is Or
}

/// Whether all tokens are plain.
pub open spec fn plain(tokens: Seq<TokenView>) -> bool {
    forall|i: int| 0 <= i < tokens.len() ==> plain_token(#[trigger] tokens[i])
}

/// Whether the tokens begin with one that begins a value.
pub open spec fn starts_value(tokens: Seq<TokenView>) -> bool {
    tokens.len() > 0 && (tokens[0] is Symbol || tokens[0] is Any || tokens[0] is OpenParenthesis)
}

/// Whether the tokens begin with the alternation mark.
pub open spec fn starts_branch(tokens: Seq<TokenView>) -> bool {
    tokens.len() > 0 && tokens[0] is Or
}

/// A value: a literal, the wildcard, or a group, which is a regex.
pub open spec fn is_value(v: Tree) -> bool
    decreases v, 3nat,
{
    if v.kind is Once {
        is_regex(v)
    } else {
        (v.kind is Symbol || v.kind is Any) && v.children.len() == 0
    }
}

/// A regex: a sequence that holds nothing but an alternation of two or more
/// concatenations, or a concatenation.
pub open spec fn is_regex(t: Tree) -> bool
    decreases t, 2nat,
{
    t.kind is Once && if t.children.len() == 1 && t.children[0].kind is Or {
        t.children[0].children.len() >= 2 && are_concats(t.children[0].children)
    } else {
        is_concat(t)
    }
}

/// A concatenation: a sequence of one or more values.
pub open spec fn is_concat(t: Tree) -> bool
    decreases t, 1nat,
{
    t.kind is Once && t.children.len() >= 1 && are_values(t.children)
}

/// Whether all trees of a list are values.
pub open spec fn are_values(vs: Seq<Tree>) -> bool
    decreases vs, 4nat,
{
    forall|i: int| 0 <= i < vs.len() ==> is_value(#[trigger] vs[i])
}

/// Whether all trees of a list are concatenations.
pub open spec fn are_concats(cs: Seq<Tree>) -> bool
    decreases cs, 4nat,
{
    forall|i: int| 0 <= i < cs.len() ==> is_concat(#[trigger] cs[i])
}

/// The tokens that a value is written with: a group stands in parentheses.
pub open spec fn value_tokens(v: Tree) -> Seq<TokenView>
    decreases v, 3nat,
{
    if v.kind is Once {
        seq![TokenView::OpenParenthesis] + regex_tokens(v) + seq![TokenView::CloseParenthesis]
    } else if let SyntaxKind::Symbol(c) = v.kind {
        seq![TokenView::Symbol(c)]
    } else {
        seq![TokenView::Any]
    }
}

/// The tokens that a regex is written with.
pub open spec fn regex_tokens(t: Tree) -> Seq<TokenView>
    decreases t, 2nat,
{
    if t.children.len() == 1 && t.children[0].kind is Or {
        alternation_tokens(t.children[0].children)
    } else {
        concat_tokens(t)
    }
}

/// The tokens of a concatenation: those of its values, one after the other.
pub open spec fn concat_tokens(t: Tree) -> Seq<TokenView>
    decreases t, 1nat,
{
    values_tokens(t.children)
}

/// The tokens of a list of values, one value after the other.
pub open spec fn values_tokens(vs: Seq<Tree>) -> Seq<TokenView>
    decreases vs, 0nat,
{
    if vs.len() == 0 {
        Seq::empty()
    } else {
        value_tokens(vs[0]) + values_tokens(vs.drop_first())
    }
}

/// The tokens of an alternation: those of its branches with the alternation mark
/// between each two.
pub open spec fn alternation_tokens(cs: Seq<Tree>) -> Seq<TokenView>
    decreases cs, 1nat,
{
    if cs.len() == 0 {
        Seq::empty()
    } else {
        concat_tokens(cs[0]) + branches_tokens(cs.drop_first())
    }
}

/// The tokens of the further branches of an alternation: before each the
/// alternation mark.
pub open spec fn branches_tokens(cs: Seq<Tree>) -> Seq<TokenView>
    decreases cs, 0nat,
{
    if cs.len() == 0 {
        Seq::empty()
    } else {
        seq![TokenView::Or] + concat_tokens(cs[0]) + branches_tokens(cs.drop_first())
    }
}

/// Whether the pattern from `pos` on is a regex written out: a concatenation or an
/// alternation of literals, wildcards and groups.
pub open spec fn written_regex(text: Seq<char>, pos: int) -> bool {
    exists|t: Tree| is_regex(t) && #[trigger] regex_tokens(t) == tokens_from(text, pos)
}

/// The tokens from a position on are the next token and the tokens behind it.
pub proof fn lemma_tokens_from(text: Seq<char>, pos: int)
    ensures
        match next_token(text, pos) {
            (Some(t), end) => tokens_from(text, pos) == seq![t] + tokens_from(text, end),
            (None, _) => tokens_from(text, pos) == Seq::<TokenView>::empty(),
        },
{
}

/// Where the tokens from a position on begin with `head`, that is the next token.
proof fn lemma_head(text: Seq<char>, pos: int, head: TokenView, more: Seq<TokenView>)
    requires
        tokens_from(text, pos) == seq![head] + more,
    ensures
        next_token(text, pos).0 == Some(head),
        tokens_from(text, next_token(text, pos).1) == more,
{
    lemma_tokens_from(text, pos);
    let (token, end) = next_token(text, pos);
    assert((seq![head] + more).len() > 0);
    assert((seq![head] + more)[0] == head);
    let t = token->0;
    assert((seq![t] + tokens_from(text, end))[0] == t);
    assert((seq![t] + tokens_from(text, end)).drop_first() =~= tokens_from(text, end));
    assert((seq![head] + more).drop_first() =~= more);
}

/// Behind plain tokens no quantifier follows.
proof fn lemma_no_quantifier(text: Seq<char>, pos: int)
    requires
        plain(tokens_from(text, pos)),
    ensures
        crate::grammar::quantifier_of(next_token(text, pos).0) is None,
{
    lemma_tokens_from(text, pos);
    if let (Some(t), end) = next_token(text, pos) {
        assert((seq![t] + tokens_from(text, end))[0] == t);
    }
}

proof fn lemma_plain_parts(a: Seq<TokenView>, b: Seq<TokenView>)
    requires
        plain(a + b),
    ensures
        plain(a),
        plain(b),
{
    assert forall|i: int| 0 <= i < a.len() implies plain_token(#[trigger] a[i]) by {
        assert((a + b)[i] == a[i]);
    }
    assert forall|i: int| 0 <= i < b.len() implies plain_token(#[trigger] b[i]) by {
        assert((a + b)[a.len() + i] == b[i]);
    }
}

/// Where no value begins, none is parsed, and nothing is wrong either.
proof fn lemma_no_value(text: Seq<char>, pos: int)
    requires
        plain(tokens_from(text, pos)),
        !starts_value(tokens_from(text, pos)),
    ensures
        value_at(text, pos) is Miss,
{
    lemma_tokens_from(text, pos);
    if let (Some(t), end) = next_token(text, pos) {
        assert((seq![t] + tokens_from(text, end))[0] == t);
    }
}

/// A value that is written at a position is parsed there, and the parse ends
/// behind it.
proof fn lemma_complete_value(v: Tree, text: Seq<char>, pos: int, rest: Seq<TokenView>)
    requires
        is_value(v),
        tokens_from(text, pos) == value_tokens(v) + rest,
        plain(tokens_from(text, pos)),
    ensures
        value_at(text, pos) matches Parsed::Done(tree, end) && tree == v && tokens_from(text, end)
            == rest,
    decreases v, 3nat,
{
    if v.kind is Once {
        let inner = regex_tokens(v);
        let close = seq![TokenView::CloseParenthesis];
        assert(value_tokens(v) + rest =~= seq![TokenView::OpenParenthesis] + (inner + (close
            + rest)));
        lemma_head(text, pos, TokenView::OpenParenthesis, inner + (close + rest));
        let p1 = next_token(text, pos).1;
        lemma_plain_parts(seq![TokenView::OpenParenthesis], inner + (close + rest));
        lemma_complete_regex(v, text, p1, close + rest);
        let p2 = regex_at(text, p1)->Done_1;
        lemma_head(text, p2, TokenView::CloseParenthesis, rest);
        let end = next_token(text, p2).1;
        lemma_plain_parts(inner, close + rest);
        lemma_plain_parts(close, rest);
        lemma_no_quantifier(text, end);
        assert(symbol_at(text, pos) is Miss);
        assert(group_at(text, pos) == Parsed::Done(v, end));
        assert(atom_at(text, pos) == Parsed::Done(v, end));
    } else {
        let head = if let SyntaxKind::Symbol(c) = v.kind {
            TokenView::Symbol(c)
        } else {
            TokenView::Any
        };
        assert(value_tokens(v) == seq![head]);
        lemma_head(text, pos, head, rest);
        let end = next_token(text, pos).1;
        lemma_plain_parts(seq![head], rest);
        lemma_no_quantifier(text, end);
        assert(v.children =~= Seq::<Tree>::empty());
        assert(atom_at(text, pos) == Parsed::Done(v, end));
    }
}

/// Values that are written one after the other, with no value behind them, are
/// parsed as the further values of a concatenation.
proof fn lemma_complete_values(vs: Seq<Tree>, text: Seq<char>, pos: int, rest: Seq<TokenView>)
    requires
        are_values(vs),
        tokens_from(text, pos) == values_tokens(vs) + rest,
        plain(tokens_from(text, pos)),
        !starts_value(rest),
    ensures
        values_at(text, pos) matches Parsed::Done(trees, end) && trees == vs && tokens_from(
            text,
            end,
        ) == rest,
    decreases vs, 0nat,
{
    if vs.len() == 0 {
        assert(values_tokens(vs) + rest =~= rest);
        lemma_no_value(text, pos);
        assert(values_at(text, pos) == Parsed::Done(Seq::<Tree>::empty(), pos));
        assert(vs =~= Seq::<Tree>::empty());
    } else {
        let first = vs[0];
        let more = vs.drop_first();
        assert(values_tokens(vs) + rest =~= value_tokens(first) + (values_tokens(more) + rest));
        lemma_complete_value(first, text, pos, values_tokens(more) + rest);
        let p1 = value_at(text, pos)->Done_1;
        lemma_value_at(text, pos);
        lemma_plain_parts(value_tokens(first), values_tokens(more) + rest);
        assert forall|i: int| 0 <= i < more.len() implies is_value(#[trigger] more[i]) by {
            assert(more[i] == vs[i + 1]);
        }
        lemma_complete_values(more, text, p1, rest);
        assert(seq![first] + more =~= vs);
    }
}

/// A concatenation that is written at a position, with no value behind it, is
/// parsed there.
proof fn lemma_complete_concat(c: Tree, text: Seq<char>, pos: int, rest: Seq<TokenView>)
    requires
        is_concat(c),
        tokens_from(text, pos) == concat_tokens(c) + rest,
        plain(tokens_from(text, pos)),
        !starts_value(rest),
    ensures
        concat_at(text, pos) matches Parsed::Done(tree, end) && tree == c && tokens_from(text, end)
            == rest,
    decreases c, 1nat,
{
    let vs = c.children;
    let first = vs[0];
    let more = vs.drop_first();
    assert(concat_tokens(c) + rest =~= value_tokens(first) + (values_tokens(more) + rest));
    lemma_complete_value(first, text, pos, values_tokens(more) + rest);
    let p1 = value_at(text, pos)->Done_1;
    lemma_value_at(text, pos);
    lemma_plain_parts(value_tokens(first), values_tokens(more) + rest);
    assert forall|i: int| 0 <= i < more.len() implies is_value(#[trigger] more[i]) by {
        assert(more[i] == vs[i + 1]);
    }
    lemma_complete_values(more, text, p1, rest);
    assert(seq![first] + more =~= vs);
    let end = values_at(text, p1)->Done_1;
    assert(concat_at(text, pos) == Parsed::Done(
        Tree { kind: SyntaxKind::Once, children: seq![first] + more },
        end,
    ));
}

/// Branches that are written one after the other, each behind an alternation mark,
/// with neither a value nor a mark behind them, are parsed as the further branches
/// of an alternation.
proof fn lemma_complete_branches(cs: Seq<Tree>, text: Seq<char>, pos: int, rest: Seq<TokenView>)
    requires
        are_concats(cs),
        tokens_from(text, pos) == branches_tokens(cs) + rest,
        plain(tokens_from(text, pos)),
        !starts_value(rest),
        !starts_branch(rest),
    ensures
        branches_at(text, pos) matches Parsed::Done(trees, end) && trees == cs && tokens_from(
            text,
            end,
        ) == rest,
    decreases cs, 0nat,
{
    if cs.len() == 0 {
        assert(branches_tokens(cs) + rest =~= rest);
        lemma_tokens_from(text, pos);
        if let (Some(t), end) = next_token(text, pos) {
            assert((seq![t] + tokens_from(text, end))[0] == t);
        }
        assert(cs =~= Seq::<Tree>::empty());
    } else {
        let first = cs[0];
        let more = cs.drop_first();
        let tail = branches_tokens(more) + rest;
        assert(branches_tokens(cs) + rest =~= seq![TokenView::Or] + (concat_tokens(first) + tail));
        lemma_head(text, pos, TokenView::Or, concat_tokens(first) + tail);
        let p1 = next_token(text, pos).1;
        lemma_plain_parts(seq![TokenView::Or], concat_tokens(first) + tail);
        assert(!starts_value(tail)) by {
            if more.len() > 0 {
                assert(branches_tokens(more)[0] == TokenView::Or);
                assert(tail[0] == TokenView::Or);
            } else {
                assert(tail =~= rest);
            }
        }
        lemma_complete_concat(first, text, p1, tail);
        let p2 = concat_at(text, p1)->Done_1;
        lemma_concat_at(text, p1);
        lemma_plain_parts(concat_tokens(first), tail);
        assert forall|i: int| 0 <= i < more.len() implies is_concat(#[trigger] more[i]) by {
            assert(more[i] == cs[i + 1]);
        }
        lemma_complete_branches(more, text, p2, rest);
        assert(seq![first] + more =~= cs);
    }
}

/// A regex that is written at a position, with neither a value nor an alternation
/// mark behind it, is parsed there.
proof fn lemma_complete_regex(t: Tree, text: Seq<char>, pos: int, rest: Seq<TokenView>)
    requires
        is_regex(t),
        tokens_from(text, pos) == regex_tokens(t) + rest,
        plain(tokens_from(text, pos)),
        !starts_value(rest),
        !starts_branch(rest),
    ensures
        regex_at(text, pos) matches Parsed::Done(tree, end) && tree == t && tokens_from(text, end)
            == rest,
    decreases t, 2nat,
{
    if t.children.len() == 1 && t.children[0].kind is Or {
        let cs = t.children[0].children;
        let first = cs[0];
        let more = cs.drop_first();
        let tail = branches_tokens(more) + rest;
        assert(regex_tokens(t) + rest =~= concat_tokens(first) + tail);
        assert(branches_tokens(more)[0] == TokenView::Or);
        assert(tail[0] == TokenView::Or);
        lemma_complete_concat(first, text, pos, tail);
        let p1 = concat_at(text, pos)->Done_1;
        lemma_concat_at(text, pos);
        lemma_plain_parts(concat_tokens(first), tail);
        assert forall|i: int| 0 <= i < more.len() implies is_concat(#[trigger] more[i]) by {
            assert(more[i] == cs[i + 1]);
        }
        lemma_complete_branches(more, text, p1, rest);
        let end = branches_at(text, p1)->Done_1;
        assert(seq![first] + more =~= cs);
        let or = Tree { kind: SyntaxKind::Or, children: seq![first] + more };
        assert(alternation_at(text, pos) == Parsed::Done(or, end));
        assert(or == t.children[0]);
        assert(t.children =~= seq![or]);
    } else {
        lemma_complete_concat(t, text, pos, rest);
        let p1 = concat_at(text, pos)->Done_1;
        lemma_concat_at(text, pos);
        lemma_tokens_from(text, p1);
        if let (Some(token), end) = next_token(text, p1) {
            assert((seq![token] + tokens_from(text, end))[0] == token);
        }
        assert(branches_at(text, p1) == Parsed::Done(Seq::<Tree>::empty(), p1));
        assert(alternation_at(text, pos) is Miss);
    }
}

/// What is parsed as a value from plain tokens is a value, written with the
/// tokens that the parse has passed.
proof fn lemma_sound_value(text: Seq<char>, pos: int)
    requires
        plain(tokens_from(text, pos)),
    ensures
        value_at(text, pos) matches Parsed::Done(v, end) ==> is_value(v) && tokens_from(text, pos)
            == value_tokens(v) + tokens_from(text, end),
    decreases text.len() - pos, 2int,
{
    lemma_tokens_from(text, pos);
    if let Parsed::Done(atom, p1) = atom_at(text, pos) {
        let (token, next) = next_token(text, pos);
        let t = token->0;
        assert((seq![t] + tokens_from(text, next))[0] == t);
        lemma_plain_parts(seq![t], tokens_from(text, next));
        if symbol_at(text, pos) is Done {
            assert(atom.children =~= Seq::<Tree>::empty());
            lemma_no_quantifier(text, p1);
        } else {
            lemma_next_token(text, pos);
            lemma_sound_regex(text, next);
            let p2 = regex_at(text, next)->Done_1;
            lemma_plain_parts(regex_tokens(atom), tokens_from(text, p2));
            lemma_tokens_from(text, p2);
            let close = next_token(text, p2).0->0;
            assert((seq![close] + tokens_from(text, p1))[0] == close);
            lemma_plain_parts(seq![close], tokens_from(text, p1));
            lemma_no_quantifier(text, p1);
            assert(tokens_from(text, pos) =~= value_tokens(atom) + tokens_from(text, p1));
        }
    }
}

proof fn lemma_sound_values(text: Seq<char>, pos: int)
    requires
        plain(tokens_from(text, pos)),
    ensures
        values_at(text, pos) matches Parsed::Done(vs, end) ==> are_values(vs) && tokens_from(
            text,
            pos,
        ) == values_tokens(vs) + tokens_from(text, end),
    decreases text.len() - pos, 3int,
{
    lemma_sound_value(text, pos);
    match value_at(text, pos) {
        Parsed::Done(value, p1) => {
            if onward(text, pos, p1) {
                lemma_plain_parts(value_tokens(value), tokens_from(text, p1));
                lemma_sound_values(text, p1);
                if let Parsed::Done(more, end) = values_at(text, p1) {
                    let vs = seq![value] + more;
                    assert(vs.drop_first() =~= more);
                    assert(vs[0] == value);
                    assert(tokens_from(text, pos) =~= values_tokens(vs) + tokens_from(text, end));
                    assert forall|i: int| 0 <= i < vs.len() implies is_value(#[trigger] vs[i]) by {
                        if i > 0 {
                            assert(vs[i] == more[i - 1]);
                        }
                    }
                }
            } else {
                assert(values_tokens(Seq::<Tree>::empty()) + tokens_from(text, pos)
                    =~= tokens_from(text, pos));
            }
        },
        Parsed::Miss(_) => {
            assert(values_tokens(Seq::<Tree>::empty()) + tokens_from(text, pos) =~= tokens_from(
                text,
                pos,
            ));
        },
        Parsed::Bad(_) => {},
    }
}

proof fn lemma_sound_concat(text: Seq<char>, pos: int)
    requires
        plain(tokens_from(text, pos)),
    ensures
        concat_at(text, pos) matches Parsed::Done(c, end) ==> is_concat(c) && tokens_from(text, pos)
            == concat_tokens(c) + tokens_from(text, end),
    decreases text.len() - pos, 4int,
{
    lemma_sound_value(text, pos);
    if let Parsed::Done(first, p1) = value_at(text, pos) {
        if onward(text, pos, p1) {
            lemma_plain_parts(value_tokens(first), tokens_from(text, p1));
            lemma_sound_values(text, p1);
            if let Parsed::Done(more, end) = values_at(text, p1) {
                let vs = seq![first] + more;
                assert(vs.drop_first() =~= more);
                assert(vs[0] == first);
                assert(tokens_from(text, pos) =~= values_tokens(vs) + tokens_from(text, end));
                assert forall|i: int| 0 <= i < vs.len() implies is_value(#[trigger] vs[i]) by {
                    if i > 0 {
                        assert(vs[i] == more[i - 1]);
                    }
                }
            }
        }
    }
}

proof fn lemma_sound_branches(text: Seq<char>, pos: int)
    requires
        plain(tokens_from(text, pos)),
    ensures
        branches_at(text, pos) matches Parsed::Done(cs, end) ==> are_concats(cs) && tokens_from(
            text,
            pos,
        ) == branches_tokens(cs) + tokens_from(text, end),
    decreases text.len() - pos, 5int,
{
    lemma_tokens_from(text, pos);
    let (token, p1) = next_token(text, pos);
    if token == Some(TokenView::Or) {
        lemma_next_token(text, pos);
        lemma_plain_parts(seq![TokenView::Or], tokens_from(text, p1));
        lemma_sound_concat(text, p1);
        if let Parsed::Done(branch, p2) = concat_at(text, p1) {
            if onward(text, p1, p2) {
                lemma_plain_parts(concat_tokens(branch), tokens_from(text, p2));
                lemma_sound_branches(text, p2);
                if let Parsed::Done(more, end) = branches_at(text, p2) {
                    let cs = seq![branch] + more;
                    assert(cs.drop_first() =~= more);
                    assert(cs[0] == branch);
                    assert(tokens_from(text, pos) =~= branches_tokens(cs) + tokens_from(text, end));
                    assert forall|i: int| 0 <= i < cs.len() implies is_concat(#[trigger] cs[i]) by {
                        if i > 0 {
                            assert(cs[i] == more[i - 1]);
                        }
                    }
                }
            }
        }
    } else {
        assert(branches_tokens(Seq::<Tree>::empty()) + tokens_from(text, pos) =~= tokens_from(
            text,
            pos,
        ));
    }
}

proof fn lemma_sound_regex(text: Seq<char>, pos: int)
    requires
        plain(tokens_from(text, pos)),
    ensures
        regex_at(text, pos) matches Parsed::Done(t, end) ==> is_regex(t) && tokens_from(text, pos)
            == regex_tokens(t) + tokens_from(text, end),
    decreases text.len() - pos, 7int,
{
    lemma_sound_concat(text, pos);
    match alternation_at(text, pos) {
        Parsed::Done(or, end) => {
            let first = concat_at(text, pos)->Done_0;
            let p1 = concat_at(text, pos)->Done_1;
            lemma_plain_parts(concat_tokens(first), tokens_from(text, p1));
            lemma_sound_branches(text, p1);
            let more = branches_at(text, p1)->Done_0;
            let cs = seq![first] + more;
            assert(cs.drop_first() =~= more);
            assert(cs[0] == first);
            assert forall|i: int| 0 <= i < cs.len() implies is_concat(#[trigger] cs[i]) by {
                if i > 0 {
                    assert(cs[i] == more[i - 1]);
                }
            }
            let t = Tree { kind: SyntaxKind::Once, children: seq![or] };
            assert(t.children[0] == or);
            assert(tokens_from(text, pos) =~= regex_tokens(t) + tokens_from(text, end));
        },
        Parsed::Miss(_) => {
            if let Parsed::Done(c, end) = concat_at(text, pos) {
                assert(is_value(c.children[0]));
            }
        },
        Parsed::Bad(_) => {},
    }
}

/// A pattern without classes and quantifiers is parsed if and only if it is a regex
/// written out: a concatenation or an alternation of literals, wildcards and
/// groups. The tree that is parsed is the regex that was written.
pub proof fn lemma_plain_pattern(text: Seq<char>, pos: int)
    requires
        plain(tokens_from(text, pos)),
    ensures
        parse_at(text, pos) is Ok <==> written_regex(text, pos),
        forall|t: Tree|
            is_regex(t) && #[trigger] regex_tokens(t) == tokens_from(text, pos) ==> (parse_at(
                text,
                pos,
            ) matches Ok((tree, _)) && tree == t),
{
    assert forall|t: Tree|
        is_regex(t) && #[trigger] regex_tokens(t) == tokens_from(text, pos) implies (parse_at(
        text,
        pos,
    ) matches Ok((tree, _)) && tree == t) by {
        let rest = Seq::<TokenView>::empty();
        assert(regex_tokens(t) + rest =~= regex_tokens(t));
        lemma_complete_regex(t, text, pos, rest);
        let end = regex_at(text, pos)->Done_1;
        lemma_tokens_from(text, end);
    }
    if parse_at(text, pos) is Ok {
        lemma_sound_regex(text, pos);
        let t = regex_at(text, pos)->Done_0;
        let end = regex_at(text, pos)->Done_1;
        lemma_tokens_from(text, end);
        assert(regex_tokens(t) + Seq::<TokenView>::empty() =~= regex_tokens(t));
        assert(is_regex(t) && regex_tokens(t) == tokens_from(text, pos));
    }
}

} // verus!
