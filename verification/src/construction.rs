//! How a syntax tree becomes an automaton.
//!
//! Every step takes the states built so far and the index of an entry state among
//! them, adds states and edges, and names an exit state. States are never removed
//! and indices never change.

use crate::automaton::{Automaton, State, StateKind};
use crate::syntax::{SyntaxKind, Tree};
use vstd::prelude::*;

verus! {

/// A piece of an automaton under construction: all states so far, and the state
/// at which what was built last ends.
pub struct Fragment {
    pub states: Seq<State>,
    pub exit: usize,
}

/// The states with a new state of the given kind, without successors, at the end.
pub open spec fn add_state(states: Seq<State>, kind: StateKind) -> Seq<State> {
    states.push(State { kind, next: Seq::empty() })
}

/// The states with one more successor, `to`, at the end of those of `from`.
pub open spec fn add_edge(states: Seq<State>, from: usize, to: usize) -> Seq<State> {
    states.update(
        from as int,
        State { kind: states[from as int].kind, next: states[from as int].next.push(to) },
    )
}

/// The kind of the state that stands for an atom.
pub open spec fn atom_kind(kind: SyntaxKind) -> StateKind {
    match kind {
        SyntaxKind::Symbol(c) => StateKind::Symbol(c),
        SyntaxKind::InSet(members) => StateKind::InSet(members),
        SyntaxKind::NotSet(members) => StateKind::NotSet(members),
        _ => StateKind::Any,
    }
}

/// An atom: a new consuming state behind the entry, which is the exit.
pub open spec fn atomic(kind: SyntaxKind, states: Seq<State>, entry: usize) -> Fragment {
    let fresh = states.len() as usize;
    Fragment { states: add_edge(add_state(states, atom_kind(kind)), entry, fresh), exit: fresh }
}

/// A new epsilon state behind `from`, which is the exit.
pub open spec fn join_behind(states: Seq<State>, from: usize) -> Fragment {
    let join = states.len() as usize;
    Fragment { states: add_edge(add_state(states, StateKind::Epsilon), from, join), exit: join }
}

/// The automaton piece for the tree `t`, entered at `entry`. A quantifier without
/// a child, which no parse yields, adds nothing.
pub open spec fn build(t: Tree, states: Seq<State>, entry: usize) -> Fragment
    decreases t, 0nat,
{
    if t.kind.is_quantifier() && t.children.len() == 0 {
        Fragment { states, exit: entry }
    } else {
        match t.kind {
            SyntaxKind::ZeroOrMore => zero_or_more(t.children[0], states, entry),
            SyntaxKind::Optional => optional(t.children[0], states, entry),
            SyntaxKind::OneOrMore => one_or_more(t.children[0], states, entry),
            SyntaxKind::Once => chain(t.children, states, entry),
            SyntaxKind::Or => either(t.children, states, entry),
            SyntaxKind::From(min) => at_least(t.children[0], min as nat, states, entry),
            SyntaxKind::To(max) => at_most(t.children[0], max as nat, states, entry),
            SyntaxKind::Between(min, max) => between(
                t.children[0],
                min as nat,
                max as nat,
                states,
                entry,
            ),
            _ => atomic(t.kind, states, entry),
        }
    }
}

/// A sequence: each child is entered at the exit of the one before it.
pub open spec fn chain(ts: Seq<Tree>, states: Seq<State>, entry: usize) -> Fragment
    decreases ts, 0nat,
{
    if ts.len() == 0 {
        Fragment { states, exit: entry }
    } else {
        let before = chain(ts.drop_last(), states, entry);
        build(ts.last(), before.states, before.exit)
    }
}

/// The branches of an alternation, each entered at `entry`: the states, and the
/// exits of the branches in their order.
pub open spec fn branches(ts: Seq<Tree>, states: Seq<State>, entry: usize) -> (Seq<State>, Seq<
    usize,
>)
    decreases ts, 0nat,
{
    if ts.len() == 0 {
        (states, Seq::empty())
    } else {
        let (before, exits) = branches(ts.drop_last(), states, entry);
        let branch = build(ts.last(), before, entry);
        (branch.states, exits.push(branch.exit))
    }
}

/// The states with an edge from each of `froms`, in their order, to `to`.
pub open spec fn add_edges(states: Seq<State>, froms: Seq<usize>, to: usize) -> Seq<State>
    decreases froms.len(),
{
    if froms.len() == 0 {
        states
    } else {
        add_edge(add_edges(states, froms.drop_last(), to), froms.last(), to)
    }
}

/// An alternation: every branch is entered at `entry`, and the exits of all
/// branches lead to one new epsilon state, which is the exit.
pub open spec fn either(ts: Seq<Tree>, states: Seq<State>, entry: usize) -> Fragment
    decreases ts, 1nat,
{
    let (built, exits) = branches(ts, states, entry);
    let join = built.len() as usize;
    Fragment { states: add_edges(add_state(built, StateKind::Epsilon), exits, join), exit: join }
}

/// Zero or more: the child's exit leads back to the entry, which is the exit too.
pub open spec fn zero_or_more(child: Tree, states: Seq<State>, entry: usize) -> Fragment
    decreases child, 1nat,
{
    let once = build(child, states, entry);
    Fragment { states: add_edge(once.states, once.exit, entry), exit: entry }
}

/// Optional: a new epsilon state behind both the entry and the child's exit.
pub open spec fn optional(child: Tree, states: Seq<State>, entry: usize) -> Fragment
    decreases child, 1nat,
{
    let once = build(child, states, entry);
    let join = once.states.len() as usize;
    Fragment {
        states: add_edge(
            add_edge(add_state(once.states, StateKind::Epsilon), entry, join),
            once.exit,
            join,
        ),
        exit: join,
    }
}

/// One or more: the child's exit leads back to the entry and is the exit.
pub open spec fn one_or_more(child: Tree, states: Seq<State>, entry: usize) -> Fragment
    decreases child, 1nat,
{
    let once = build(child, states, entry);
    Fragment { states: add_edge(once.states, once.exit, entry), exit: once.exit }
}

/// `count` copies of the child, each entered at the exit of the one before it.
pub open spec fn repeat(child: Tree, count: nat, states: Seq<State>, entry: usize) -> Fragment
    decreases child, count + 1,
{
    if count == 0 {
        Fragment { states, exit: entry }
    } else {
        let before = repeat(child, (count - 1) as nat, states, entry);
        build(child, before.states, before.exit)
    }
}

/// `count` copies of the child, each entered at the exit of the one before it, and
/// the exit of each leading to `join`. The exit is that of the last copy.
pub open spec fn repeat_joined(
    child: Tree,
    count: nat,
    states: Seq<State>,
    entry: usize,
    join: usize,
) -> Fragment
    decreases child, count + 1,
{
    if count == 0 {
        Fragment { states, exit: entry }
    } else {
        let before = repeat_joined(child, (count - 1) as nat, states, entry, join);
        let copy = build(child, before.states, before.exit);
        Fragment { states: add_edge(copy.states, copy.exit, join), exit: copy.exit }
    }
}

/// At least `min`: `min` copies in a row, a new epsilon state behind them, and
/// zero or more at that state, which is the exit. With a minimum of 0 this is the
/// same as one or more.
pub open spec fn at_least(child: Tree, min: nat, states: Seq<State>, entry: usize) -> Fragment
    decreases child, min + 2,
{
    if min == 0 {
        one_or_more(child, states, entry)
    } else {
        let required = repeat(child, min, states, entry);
        let join = join_behind(required.states, required.exit);
        zero_or_more(child, join.states, join.exit)
    }
}

/// At most `max`: a new epsilon state behind the entry, which is the exit, and
/// `max` copies in a row whose exits all lead to it.
pub open spec fn at_most(child: Tree, max: nat, states: Seq<State>, entry: usize) -> Fragment
    decreases child, max + 2,
{
    let join = join_behind(states, entry);
    Fragment {
        states: repeat_joined(child, max, join.states, entry, join.exit).states,
        exit: join.exit,
    }
}

/// Between `min` and `max`: `min` copies in a row, a new epsilon state behind
/// them, which is the exit, and `max - min` further copies whose exits all lead
/// to it.
pub open spec fn between(
    child: Tree,
    min: nat,
    max: nat,
    states: Seq<State>,
    entry: usize,
) -> Fragment
    decreases child, min + max + 2,
{
    let required = repeat(child, min, states, entry);
    let join = join_behind(required.states, required.exit);
    let further = if max >= min {
        (max - min) as nat
    } else {
        0
    };
    Fragment {
        states: repeat_joined(child, further, join.states, required.exit, join.exit).states,
        exit: join.exit,
    }
}

/// The automaton of a pattern: an epsilon state to start in, the piece for the
/// tree behind it, and one accepting state behind that.
pub open spec fn automaton_of(t: Tree) -> Automaton {
    let begin = seq![State { kind: StateKind::Epsilon, next: Seq::empty() }];
    let body = build(t, begin, 0);
    let accept = body.states.len() as usize;
    Automaton {
        states: add_edge(add_state(body.states, StateKind::Accept), body.exit, accept),
        start: 0,
    }
}

} // verus!
