//! The grammar of patterns, as functions from the pattern's characters and a
//! position to what is parsed there.
//!
//! ```text
//! regex         := alternation | concatenation
//! alternation   := concatenation ('|' concatenation)+
//! concatenation := value+
//! value         := atom quantifier?
//! atom          := Symbol | InSet | NotSet | Any | '(' regex ')'
//! quantifier    := '*' | '+' | '?' | From | To | Between
//! ```
//!
//! A part of the grammar that does not apply is a miss: the parse goes back to where
//! that part started and tries what comes next. A bound or a class range that is
//! not valid is a fault that ends the whole parse.

use crate::lexer::{lemma_next_token, next_token, SetSymbol, TokenView};
use crate::syntax::{leaf, shaped, wrap, SyntaxKind, Tree};
use vstd::prelude::*;

verus! {

/// Why a parse did not succeed.
pub enum Fault {
    UnknownSymbol,
    ExpectedOr,
    ExpectedParenthesis,
    ExpectedRegex,
    ExpectedClosingParenthesis,
    ExpectedSymbol,
    ZeroMaximum,
    MinimumAboveMaximum,
    RangeReversed,
    RangeNotAlphanumeric,
}

/// The message that belongs to a fault.
pub open spec fn fault_text(fault: Fault) -> Seq<char> {
    match fault {
        Fault::UnknownSymbol => "unknown symbol"@,
        Fault::ExpectedOr => "expected or"@,
        Fault::ExpectedParenthesis => "expected parenthesis"@,
        Fault::ExpectedRegex => "expected regex"@,
        Fault::ExpectedClosingParenthesis => "expected closing parenthesis"@,
        Fault::ExpectedSymbol => "expected symbol"@,
        Fault::ZeroMaximum => "to must be greater than 0 in range"@,
        Fault::MinimumAboveMaximum => "from must be lower or equal to to in range"@,
        Fault::RangeReversed => "the numeric value of start must be less than end in a range"@,
        Fault::RangeNotAlphanumeric => "the start and end of a range must a alphanumeric"@,
    }
}

/// What a part of the grammar yields at a position.
pub enum Parsed<T> {
    /// It applies: what was parsed, and the position behind it.
    Done(T, int),
    /// It does not apply here.
    Miss(Fault),
    /// The pattern is not valid.
    Bad(Fault),
}

/// Whether an ordinal lies in the band from `0` to `z`.
pub open spec fn in_band(ordinal: u32) -> bool {
    0x30 <= ordinal <= 0x7A
}

/// What is wrong with a class member, if anything. A range is valid where both
/// bounds lie in the band and the first is not above the second.
pub open spec fn member_fault(member: SetSymbol) -> Option<Fault> {
    match member {
        SetSymbol::Char(_) => None,
        SetSymbol::Range(start, end) => if in_band(start) && in_band(end) {
            if start > end {
                Some(Fault::RangeReversed)
            } else {
                None
            }
        } else {
            Some(Fault::RangeNotAlphanumeric)
        },
    }
}

/// The fault of the first member of a class that has one.
pub open spec fn class_fault(members: Seq<SetSymbol>) -> Option<Fault>
    decreases members.len(),
{
    if members.len() == 0 {
        None
    } else if member_fault(members[0]) is Some {
        member_fault(members[0])
    } else {
        class_fault(members.drop_first())
    }
}

/// What is wrong with the bounds of a quantifier, if anything. Bounds are valid
/// where the minimum is not above the maximum and the maximum is not 0.
pub open spec fn bounds_fault(quantifier: SyntaxKind) -> Option<Fault> {
    match quantifier {
        SyntaxKind::To(max) => if max == 0 {
            Some(Fault::ZeroMaximum)
        } else {
            None
        },
        SyntaxKind::Between(min, max) => if min > max {
            Some(Fault::MinimumAboveMaximum)
        } else if max == 0 {
            Some(Fault::ZeroMaximum)
        } else {
            None
        },
        _ => None,
    }
}

/// The quantifier that a token stands for.
pub open spec fn quantifier_of(token: Option<TokenView>) -> Option<SyntaxKind> {
    match token {
        Some(TokenView::ZeroOrMore) => Some(SyntaxKind::ZeroOrMore),
        Some(TokenView::Optional) => Some(SyntaxKind::Optional),
        Some(TokenView::OneOrMore) => Some(SyntaxKind::OneOrMore),
        Some(TokenView::From(min)) => Some(SyntaxKind::From(min)),
        Some(TokenView::To(max)) => Some(SyntaxKind::To(max)),
        Some(TokenView::Between(min, max)) => Some(SyntaxKind::Between(min, max)),
        _ => None,
    }
}

/// What a repetition yields when `trees` were parsed before `rest`.
pub open spec fn prepend(trees: Seq<Tree>, rest: Parsed<Seq<Tree>>) -> Parsed<Seq<Tree>> {
    match rest {
        Parsed::Done(more, end) => Parsed::Done(trees + more, end),
        Parsed::Miss(fault) => Parsed::Miss(fault),
        Parsed::Bad(fault) => Parsed::Bad(fault),
    }
}

/// The tree above the first child and further children, where these were parsed.
pub open spec fn gather(kind: SyntaxKind, first: Tree, rest: Parsed<Seq<Tree>>) -> Parsed<Tree> {
    match rest {
        Parsed::Done(more, end) => Parsed::Done(Tree { kind, children: seq![first] + more }, end),
        Parsed::Miss(fault) => Parsed::Miss(fault),
        Parsed::Bad(fault) => Parsed::Bad(fault),
    }
}

/// Whether a parse that started at `pos` and ended at `end` has moved on and has
/// stayed inside the text. Every parse that succeeds has
/// ([`lemma_regex_at`] and the lemmas beside it); the grammar asks where it repeats
/// a part, which shows that the repetition ends.
pub open spec fn onward(text: Seq<char>, pos: int, end: int) -> bool {
    pos < end <= text.len()
}

/// An atom that is a single token: a symbol, the wildcard or a class.
pub open spec fn symbol_at(text: Seq<char>, pos: int) -> Parsed<Tree> {
    let (token, end) = next_token(text, pos);
    match token {
        Some(TokenView::Symbol(c)) => Parsed::Done(leaf(SyntaxKind::Symbol(c)), end),
        Some(TokenView::Any) => Parsed::Done(leaf(SyntaxKind::Any), end),
        Some(TokenView::InSet(members)) => match class_fault(members) {
            Some(fault) => Parsed::Bad(fault),
            None => Parsed::Done(leaf(SyntaxKind::InSet(members)), end),
        },
        Some(TokenView::NotSet(members)) => match class_fault(members) {
            Some(fault) => Parsed::Bad(fault),
            None => Parsed::Done(leaf(SyntaxKind::NotSet(members)), end),
        },
        _ => Parsed::Miss(Fault::ExpectedSymbol),
    }
}

/// `regex := alternation | concatenation`. An alternation is wrapped in a sequence
/// of its own.
pub open spec fn regex_at(text: Seq<char>, pos: int) -> Parsed<Tree>
    decreases text.len() - pos, 7int,
{
    match alternation_at(text, pos) {
        Parsed::Done(tree, end) => Parsed::Done(wrap(SyntaxKind::Once, tree), end),
        Parsed::Bad(fault) => Parsed::Bad(fault),
        Parsed::Miss(_) => concat_at(text, pos),
    }
}

/// `alternation := concatenation ('|' concatenation)+`
pub open spec fn alternation_at(text: Seq<char>, pos: int) -> Parsed<Tree>
    decreases text.len() - pos, 6int,
{
    match concat_at(text, pos) {
        Parsed::Done(first, p1) => if onward(text, pos, p1) {
            match branches_at(text, p1) {
                Parsed::Done(rest, end) => if rest.len() == 0 {
                    Parsed::Miss(Fault::ExpectedOr)
                } else {
                    gather(SyntaxKind::Or, first, branches_at(text, p1))
                },
                Parsed::Miss(fault) => Parsed::Miss(fault),
                Parsed::Bad(fault) => Parsed::Bad(fault),
            }
        } else {
            Parsed::Miss(Fault::ExpectedOr)
        },
        Parsed::Miss(fault) => Parsed::Miss(fault),
        Parsed::Bad(fault) => Parsed::Bad(fault),
    }
}

/// `('|' concatenation)*`: the further branches of an alternation. A `|` that no
/// concatenation follows is a miss.
pub open spec fn branches_at(text: Seq<char>, pos: int) -> Parsed<Seq<Tree>>
    decreases text.len() - pos, 5int,
{
    let (token, p1) = next_token(text, pos);
    if token == Some(TokenView::Or) {
        proof {
            lemma_next_token(text, pos);
        }
        match concat_at(text, p1) {
            Parsed::Done(branch, p2) => if onward(text, p1, p2) {
                prepend(seq![branch], branches_at(text, p2))
            } else {
                Parsed::Miss(Fault::ExpectedOr)
            },
            Parsed::Miss(fault) => Parsed::Miss(fault),
            Parsed::Bad(fault) => Parsed::Bad(fault),
        }
    } else {
        Parsed::Done(Seq::empty(), pos)
    }
}

/// `concatenation := value+`
pub open spec fn concat_at(text: Seq<char>, pos: int) -> Parsed<Tree>
    decreases text.len() - pos, 4int,
{
    match value_at(text, pos) {
        Parsed::Done(first, p1) => if onward(text, pos, p1) {
            gather(SyntaxKind::Once, first, values_at(text, p1))
        } else {
            Parsed::Miss(Fault::ExpectedSymbol)
        },
        Parsed::Miss(fault) => Parsed::Miss(fault),
        Parsed::Bad(fault) => Parsed::Bad(fault),
    }
}

/// `value*`: the further values of a concatenation, as many as there are.
pub open spec fn values_at(text: Seq<char>, pos: int) -> Parsed<Seq<Tree>>
    decreases text.len() - pos, 3int,
{
    match value_at(text, pos) {
        Parsed::Done(value, p1) => if onward(text, pos, p1) {
            prepend(seq![value], values_at(text, p1))
        } else {
            Parsed::Done(Seq::empty(), pos)
        },
        Parsed::Miss(_) => Parsed::Done(Seq::empty(), pos),
        Parsed::Bad(fault) => Parsed::Bad(fault),
    }
}

/// `value := atom quantifier?`
pub open spec fn value_at(text: Seq<char>, pos: int) -> Parsed<Tree>
    decreases text.len() - pos, 2int,
{
    match atom_at(text, pos) {
        Parsed::Done(atom, p1) => {
            let (token, end) = next_token(text, p1);
            match quantifier_of(token) {
                Some(quantifier) => match bounds_fault(quantifier) {
                    Some(fault) => Parsed::Bad(fault),
                    None => Parsed::Done(wrap(quantifier, atom), end),
                },
                None => Parsed::Done(atom, p1),
            }
        },
        Parsed::Miss(fault) => Parsed::Miss(fault),
        Parsed::Bad(fault) => Parsed::Bad(fault),
    }
}

/// `atom := Symbol | InSet | NotSet | Any | '(' regex ')'`
pub open spec fn atom_at(text: Seq<char>, pos: int) -> Parsed<Tree>
    decreases text.len() - pos, 1int,
{
    match symbol_at(text, pos) {
        Parsed::Done(tree, end) => Parsed::Done(tree, end),
        Parsed::Bad(fault) => Parsed::Bad(fault),
        Parsed::Miss(_) => group_at(text, pos),
    }
}

/// `'(' regex ')'`. The tree of a group is the tree of the regex inside it.
pub open spec fn group_at(text: Seq<char>, pos: int) -> Parsed<Tree>
    decreases text.len() - pos, 0int,
{
    let (open, p1) = next_token(text, pos);
    if open == Some(TokenView::OpenParenthesis) {
        proof {
            lemma_next_token(text, pos);
        }
        match regex_at(text, p1) {
            Parsed::Done(tree, p2) => {
                let (close, end) = next_token(text, p2);
                if close == Some(TokenView::CloseParenthesis) {
                    Parsed::Done(tree, end)
                } else {
                    Parsed::Miss(Fault::ExpectedRegex)
                }
            },
            Parsed::Miss(_) => Parsed::Miss(Fault::ExpectedClosingParenthesis),
            Parsed::Bad(fault) => Parsed::Bad(fault),
        }
    } else {
        Parsed::Miss(Fault::ExpectedParenthesis)
    }
}

/// The tree of the pattern that starts at `pos` and takes up the rest of the text,
/// and the position behind it; or why there is none.
pub open spec fn parse_at(text: Seq<char>, pos: int) -> Result<(Tree, int), Fault> {
    match regex_at(text, pos) {
        Parsed::Done(tree, end) => if next_token(text, end).0 is Some {
            Err(Fault::UnknownSymbol)
        } else {
            Ok((tree, end))
        },
        Parsed::Miss(fault) => Err(fault),
        Parsed::Bad(fault) => Err(fault),
    }
}

/// Trees parsed one after the other are the list of them all.
pub proof fn lemma_prepend_push(trees: Seq<Tree>, tree: Tree, rest: Parsed<Seq<Tree>>)
    ensures
        prepend(trees, prepend(seq![tree], rest)) == prepend(trees.push(tree), rest),
{
    if let Parsed::Done(more, end) = rest {
        assert(trees + (seq![tree] + more) =~= trees.push(tree) + more);
    }
}

/// No trees parsed before leave what follows as it is.
pub proof fn lemma_prepend_none(rest: Parsed<Seq<Tree>>)
    ensures
        prepend(Seq::empty(), rest) == rest,
{
    if let Parsed::Done(more, end) = rest {
        assert(Seq::<Tree>::empty() + more =~= more);
    }
}

/// Nothing more parsed leaves the list as it is.
pub proof fn lemma_prepend_end(trees: Seq<Tree>, end: int)
    ensures
        prepend(trees, Parsed::Done(Seq::empty(), end)) == Parsed::Done(trees, end),
{
    assert(trees + Seq::<Tree>::empty() =~= trees);
}

/// A regex that is parsed ends behind its start and inside the text, and its tree
/// is well shaped.
pub proof fn lemma_regex_at(text: Seq<char>, pos: int)
    ensures
        regex_at(text, pos) matches Parsed::Done(tree, end) ==> onward(text, pos, end) && shaped(
            tree,
        ),
    decreases text.len() - pos, 7int,
{
    lemma_alternation_at(text, pos);
    lemma_concat_at(text, pos);
}

/// The same of an alternation.
pub proof fn lemma_alternation_at(text: Seq<char>, pos: int)
    ensures
        alternation_at(text, pos) matches Parsed::Done(tree, end) ==> onward(text, pos, end)
            && shaped(tree),
    decreases text.len() - pos, 6int,
{
    lemma_concat_at(text, pos);
    if let Parsed::Done(first, p1) = concat_at(text, pos) {
        if onward(text, pos, p1) {
            lemma_branches_at(text, p1);
        }
    }
}

/// Further branches end at or behind their start, and each is well shaped.
pub proof fn lemma_branches_at(text: Seq<char>, pos: int)
    ensures
        branches_at(text, pos) matches Parsed::Done(trees, end) ==> (end == pos || onward(
            text,
            pos,
            end,
        )) && forall|k: int| 0 <= k < trees.len() ==> shaped(#[trigger] trees[k]),
    decreases text.len() - pos, 5int,
{
    let (token, p1) = next_token(text, pos);
    if token == Some(TokenView::Or) {
        lemma_next_token(text, pos);
        lemma_concat_at(text, p1);
        if let Parsed::Done(branch, p2) = concat_at(text, p1) {
            if onward(text, p1, p2) {
                lemma_branches_at(text, p2);
            }
        }
    }
}

/// The same of a concatenation.
pub proof fn lemma_concat_at(text: Seq<char>, pos: int)
    ensures
        concat_at(text, pos) matches Parsed::Done(tree, end) ==> onward(text, pos, end) && shaped(
            tree,
        ),
    decreases text.len() - pos, 4int,
{
    lemma_value_at(text, pos);
    if let Parsed::Done(first, p1) = value_at(text, pos) {
        if onward(text, pos, p1) {
            lemma_values_at(text, p1);
        }
    }
}

/// Further values end at or behind their start, each is well shaped, and reading
/// them is never a miss.
pub proof fn lemma_values_at(text: Seq<char>, pos: int)
    ensures
        values_at(text, pos) matches Parsed::Done(trees, end) ==> (end == pos || onward(
            text,
            pos,
            end,
        )) && forall|k: int| 0 <= k < trees.len() ==> shaped(#[trigger] trees[k]),
        !(values_at(text, pos) is Miss),
    decreases text.len() - pos, 3int,
{
    lemma_value_at(text, pos);
    if let Parsed::Done(value, p1) = value_at(text, pos) {
        if onward(text, pos, p1) {
            lemma_values_at(text, p1);
        }
    }
}

/// The same of a value.
pub proof fn lemma_value_at(text: Seq<char>, pos: int)
    ensures
        value_at(text, pos) matches Parsed::Done(tree, end) ==> onward(text, pos, end) && shaped(
            tree,
        ),
    decreases text.len() - pos, 2int,
{
    lemma_atom_at(text, pos);
    if let Parsed::Done(atom, p1) = atom_at(text, pos) {
        lemma_next_token(text, p1);
    }
}

/// The same of an atom.
pub proof fn lemma_atom_at(text: Seq<char>, pos: int)
    ensures
        atom_at(text, pos) matches Parsed::Done(tree, end) ==> onward(text, pos, end) && shaped(
            tree,
        ),
    decreases text.len() - pos, 1int,
{
    lemma_next_token(text, pos);
    lemma_group_at(text, pos);
}

/// The same of a group.
pub proof fn lemma_group_at(text: Seq<char>, pos: int)
    ensures
        group_at(text, pos) matches Parsed::Done(tree, end) ==> onward(text, pos, end) && shaped(
            tree,
        ),
    decreases text.len() - pos, 0int,
{
    let (open, p1) = next_token(text, pos);
    if open == Some(TokenView::OpenParenthesis) {
        lemma_next_token(text, pos);
        lemma_regex_at(text, p1);
        if let Parsed::Done(tree, p2) = regex_at(text, p1) {
            lemma_next_token(text, p2);
        }
    }
}

} // verus!
