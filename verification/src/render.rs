//! What the textual forms of tokens, syntax trees and automata are.

use crate::automaton::{State, StateKind};
use crate::lexer::SetSymbol;
use crate::syntax::{Node, SyntaxKind, Tree};
use crate::text::{char_debug, decimal_text, push_decimal, push_string};
use vstd::prelude::*;

verus! {

/// The parts with the separator between each two of them.
pub open spec fn joined(parts: Seq<Seq<char>>, separator: Seq<char>) -> Seq<char>
    decreases parts.len(),
{
    if parts.len() == 0 {
        Seq::empty()
    } else if parts.len() == 1 {
        parts[0]
    } else {
        joined(parts.drop_last(), separator) + separator + parts.last()
    }
}

/// A class member: a character between quotes, or the two ordinals of a range,
/// each between quotes, with a dash between them.
pub open spec fn set_symbol_text(member: SetSymbol) -> Seq<char> {
    match member {
        SetSymbol::Char(c) => "'"@ + seq![c] + "'"@,
        SetSymbol::Range(start, end) => "'"@ + decimal_text(start as nat) + "'-'"@ + decimal_text(
            end as nat,
        ) + "'"@,
    }
}

/// The members of a class, separated by a comma and a space.
pub open spec fn members_text(members: Seq<SetSymbol>) -> Seq<char> {
    joined(members.map_values(|m: SetSymbol| set_symbol_text(m)), ", "@)
}

/// The plain name of a kind of syntax node, as a diagram shows it.
pub open spec fn syntax_text(kind: SyntaxKind) -> Seq<char> {
    match kind {
        SyntaxKind::ZeroOrMore => "ZeroOrMore"@,
        SyntaxKind::Optional => "Optional"@,
        SyntaxKind::OneOrMore => "OneOrMore"@,
        SyntaxKind::Once => "Once"@,
        SyntaxKind::Or => "Or"@,
        SyntaxKind::From(min) => "From "@ + decimal_text(min as nat),
        SyntaxKind::To(max) => "To "@ + decimal_text(max as nat),
        SyntaxKind::Between(min, max) => "Between "@ + decimal_text(min as nat) + " and "@
            + decimal_text(max as nat),
        SyntaxKind::Symbol(c) => "Symbol "@ + seq![c],
        SyntaxKind::InSet(members) => members_text(members),
        SyntaxKind::NotSet(members) => "not "@ + members_text(members),
        SyntaxKind::Any => "Any"@,
    }
}

/// A class member in constructor form: `Char('a')` or `Range(98, 122)`.
pub open spec fn member_debug(member: SetSymbol) -> Seq<char> {
    match member {
        SetSymbol::Char(c) => "Char("@ + char_debug(c) + ")"@,
        SetSymbol::Range(start, end) => "Range("@ + decimal_text(start as nat) + ", "@
            + decimal_text(end as nat) + ")"@,
    }
}

/// The members of a class in constructor form, as a list in square brackets.
pub open spec fn members_debug(members: Seq<SetSymbol>) -> Seq<char> {
    "["@ + joined(members.map_values(|m: SetSymbol| member_debug(m)), ", "@) + "]"@
}

/// A kind of syntax node in constructor form: `Once`, `From(1)`, `Between(2, 3)`,
/// `Symbol('a')`, `Set([Char('a'), Range(98, 122)])`.
pub open spec fn syntax_debug(kind: SyntaxKind) -> Seq<char> {
    match kind {
        SyntaxKind::ZeroOrMore => "ZeroOrMore"@,
        SyntaxKind::Optional => "Optional"@,
        SyntaxKind::OneOrMore => "OneOrMore"@,
        SyntaxKind::Once => "Once"@,
        SyntaxKind::Or => "Or"@,
        SyntaxKind::From(min) => "From("@ + decimal_text(min as nat) + ")"@,
        SyntaxKind::To(max) => "To("@ + decimal_text(max as nat) + ")"@,
        SyntaxKind::Between(min, max) => "Between("@ + decimal_text(min as nat) + ", "@
            + decimal_text(max as nat) + ")"@,
        SyntaxKind::Symbol(c) => "Symbol("@ + char_debug(c) + ")"@,
        SyntaxKind::InSet(members) => "Set("@ + members_debug(members) + ")"@,
        SyntaxKind::NotSet(members) => "NotSet("@ + members_debug(members) + ")"@,
        SyntaxKind::Any => "Any"@,
    }
}

/// A tree in list form: an opening parenthesis, the children in the same form, the
/// kind of the root in constructor form, a closing parenthesis.
pub open spec fn lisp_text(t: Tree) -> Seq<char>
    decreases t, 1nat,
{
    "("@ + forest_text(t.children) + syntax_debug(t.kind) + ")"@
}

/// The trees of a list in list form, one after the other.
pub open spec fn forest_text(ts: Seq<Tree>) -> Seq<char>
    decreases ts, 0nat,
{
    if ts.len() == 0 {
        Seq::empty()
    } else {
        forest_text(ts.drop_last()) + lisp_text(ts.last())
    }
}

/// The lines of a flowchart for the edges from the node `from` to each target.
pub open spec fn edges_text(from: nat, targets: Seq<usize>) -> Seq<char>
    decreases targets.len(),
{
    if targets.len() == 0 {
        Seq::empty()
    } else {
        edges_text(from, targets.drop_last()) + "\t"@ + decimal_text(from) + "-->"@ + decimal_text(
            targets.last() as nat,
        ) + "\n"@
    }
}

/// The lines of a flowchart for one node: its number and label, then its edges.
pub open spec fn row_text(index: nat, label: Seq<char>, targets: Seq<usize>) -> Seq<char> {
    "\t"@ + decimal_text(index) + "("@ + label + ")\n"@ + edges_text(index, targets)
}

/// The head of a flowchart.
pub open spec fn chart_head() -> Seq<char> {
    "```mermaid\n"@ + "flowchart LR\n"@
}

/// The foot of a flowchart.
pub open spec fn chart_foot() -> Seq<char> {
    "```\n"@
}

/// The rows of the first `upto` nodes of a syntax arena.
pub open spec fn syntax_rows(nodes: Seq<Node>, upto: nat) -> Seq<char>
    decreases upto,
{
    if upto == 0 {
        Seq::empty()
    } else {
        let i = (upto - 1) as nat;
        syntax_rows(nodes, i) + row_text(i, syntax_text(nodes[i as int].kind), nodes[i as int].children)
    }
}

/// A syntax arena as a flowchart: every node with its label and edges to its
/// children.
pub open spec fn syntax_chart(nodes: Seq<Node>) -> Seq<char> {
    chart_head() + syntax_rows(nodes, nodes.len()) + chart_foot()
}

/// The label of a state in a flowchart.
pub open spec fn state_text(kind: StateKind) -> Seq<char> {
    match kind {
        StateKind::Symbol(c) => "'"@ + seq![c] + "'"@,
        StateKind::Accept => "Accept"@,
        StateKind::Epsilon => "None"@,
        StateKind::Any => "Any"@,
        StateKind::InSet(members) => members_text(members),
        StateKind::NotSet(members) => "not "@ + members_text(members),
    }
}

/// The rows of the first `upto` states.
pub open spec fn state_rows(states: Seq<State>, upto: nat) -> Seq<char>
    decreases upto,
{
    if upto == 0 {
        Seq::empty()
    } else {
        let i = (upto - 1) as nat;
        state_rows(states, i) + row_text(i, state_text(states[i as int].kind), states[i as int].next)
    }
}

/// An automaton as a flowchart: every state with its label and its edges.
pub open spec fn state_chart(states: Seq<State>) -> Seq<char> {
    chart_head() + state_rows(states, states.len()) + chart_foot()
}

/// Appends the lines of a flowchart for one node.
pub(crate) fn push_row(index: usize, label: &str, targets: &Vec<usize>, out: &mut Vec<char>)
    ensures
        final(out)@ == old(out)@ + row_text(index as nat, label@, targets@),
{
    push_string("\t", out);
    push_decimal(index, out);
    push_string("(", out);
    push_string(label, out);
    push_string(")\n", out);
    let ghost head = out@;
    let mut k: usize = 0;
    proof {
        assert(targets@.take(0) =~= Seq::<usize>::empty());
        assert(out@ =~= head + edges_text(index as nat, targets@.take(0)));
    }
    while k < targets.len()
        invariant
            k <= targets.len(),
            out@ == head + edges_text(index as nat, targets@.take(k as int)),
        decreases targets.len() - k,
    {
        push_string("\t", out);
        push_decimal(index, out);
        push_string("-->", out);
        push_decimal(targets[k], out);
        push_string("\n", out);
        proof {
            assert(targets@.take(k + 1).drop_last() =~= targets@.take(k as int));
            assert(out@ =~= head + edges_text(index as nat, targets@.take(k + 1)));
        }
        k += 1;
    }
    proof {
        assert(targets@.take(targets.len() as int) =~= targets@);
        assert(out@ =~= old(out)@ + row_text(index as nat, label@, targets@));
    }
}

} // verus!
