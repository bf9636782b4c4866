//! The compiled matcher: an automaton built once from a pattern and run against any
//! number of subject texts.

use crate::automaton::{
    count_unset, edges_in_range, extends, in_set, lemma_count_unset_update, member_matches,
    Automaton, State, StateKind,
};
use crate::construction::{
    add_edge, add_edges, add_state, at_least, at_most, atomic, automaton_of, between, branches,
    build, chain, either, one_or_more, optional, repeat, repeat_joined, zero_or_more, Fragment,
};
use crate::grammar::{fault_text, parse_at};
use crate::laws::lemma_matches_partition;
use crate::lexer::{chars_of, push_members, Lexer, SetSymbol};
use crate::parser::{parse_regex, ParseError, SyntaxType, AST};
use crate::render::{chart_head, push_row, state_chart, state_rows, state_text};
use crate::spans::{separate, stitched};
use crate::syntax::{lemma_tree_at, ordered, shaped, tree_at, Tree};
use crate::text::{push_string, string_of};
use vstd::pervasive::unreached;
use vstd::prelude::*;

verus! {

/// What a state of the compiled automaton does.
#[derive(Debug)]
pub enum StateType {
    Symbol(char),
    Any,
    InSet(Vec<SetSymbol>),
    NotSet(Vec<SetSymbol>),
    Accept,
    Epsilon,
}

impl View for StateType {
    type V = StateKind;

    open spec fn view(&self) -> StateKind {
        match *self {
            StateType::Symbol(c) => StateKind::Symbol(c),
            StateType::Any => StateKind::Any,
            StateType::InSet(members) => StateKind::InSet(members@),
            StateType::NotSet(members) => StateKind::NotSet(members@),
            StateType::Accept => StateKind::Accept,
            StateType::Epsilon => StateKind::Epsilon,
        }
    }
}

impl StateType {
    /// The label of a state of this type in a flowchart.
    pub fn to_string(&self) -> (text: String)
        ensures
            text@ == state_text(self@),
    {
        let mut out: Vec<char> = Vec::new();
        match self {
            StateType::Symbol(c) => {
                push_string("'", &mut out);
                out.push(*c);
                push_string("'", &mut out);
            },
            StateType::Accept => push_string("Accept", &mut out),
            StateType::Epsilon => push_string("None", &mut out),
            StateType::Any => push_string("Any", &mut out),
            StateType::InSet(set) => push_members(set, &mut out),
            StateType::NotSet(set) => {
                push_string("not ", &mut out);
                push_members(set, &mut out);
            },
        }
        proof {
            assert(out@ =~= state_text(self@));
        }
        string_of(&out)
    }
}

/// One state of the compiled automaton.
pub struct StateNode {
    pub state_type: StateType,
    pub next: Vec<usize>,
}

impl View for StateNode {
    type V = State;

    open spec fn view(&self) -> State {
        State { kind: self.state_type@, next: self.next@ }
    }
}

/// The states of a list of nodes.
pub open spec fn states_of(nodes: Seq<StateNode>) -> Seq<State> {
    Seq::new(nodes.len(), |i: int| nodes[i]@)
}

/// The arena of states of a compiled automaton.
pub struct States {
    pub nodes: Vec<StateNode>,
    pub starting_state: usize,
}

impl View for States {
    type V = Automaton;

    open spec fn view(&self) -> Automaton {
        Automaton { states: states_of(self.nodes@), start: self.starting_state }
    }
}

impl States {
    /// The automaton as a flowchart: every state with its label and its edges.
    pub fn to_string(&self) -> (text: String)
        ensures
            text@ == state_chart(self@.states),
    {
        let mut out: Vec<char> = Vec::new();
        States::push_string("```mermaid\n", &mut out);
        States::push_string("flowchart LR\n", &mut out);
        let ghost head = out@;
        let mut i: usize = 0;
        proof {
            assert(out@ =~= head + state_rows(self@.states, 0));
        }
        while i < self.nodes.len()
            invariant
                i <= self.nodes@.len(),
                head == chart_head(),
                out@ == head + state_rows(self@.states, i as nat),
            decreases self.nodes@.len() - i,
        {
            let state = &self.nodes[i];
            let label = state.state_type.to_string();
            push_row(i, label.as_str(), &state.next, &mut out);
            proof {
                assert(self@.states[i as int] == state@);
                assert(out@ =~= head + state_rows(self@.states, (i + 1) as nat));
            }
            i += 1;
        }
        States::push_string("```\n", &mut out);
        proof {
            assert(out@ =~= state_chart(self@.states));
        }
        string_of(&out)
    }

    fn push_string(string: &str, out: &mut Vec<char>)
        ensures
            final(out)@ == old(out)@ + string@,
    {
        push_string(string, out);
    }
}

/// A compiled pattern. It is never changed once built.
pub struct Regex {
    states: States,
}

impl View for Regex {
    type V = Automaton;

    closed spec fn view(&self) -> Automaton {
        self.states@
    }
}

/// Every state in `stack` is reached at position `p`.
spec fn all_reached(
    aut: Automaton,
    text: Seq<char>,
    from: int,
    p: int,
    stack: Seq<usize>,
) -> bool {
    forall|k: int|
        0 <= k < stack.len() ==> (#[trigger] stack[k]) < aut.states.len() && aut.reaches(
            text,
            from,
            p,
            stack[k],
        )
}

/// Every marked state is reached at position `p`.
spec fn marks_reached(
    aut: Automaton,
    text: Seq<char>,
    from: int,
    p: int,
    visited: Seq<bool>,
) -> bool {
    forall|q: usize| q < visited.len() && #[trigger] visited[q as int] ==> aut.reaches(text, from, p, q)
}

/// Every state that enters position `p` is marked or waits in `stack`.
spec fn entries_held(
    aut: Automaton,
    text: Seq<char>,
    from: int,
    p: int,
    visited: Seq<bool>,
    stack: Seq<usize>,
) -> bool {
    forall|r: usize|
        #![trigger aut.enters(text, from, p, r)]
        aut.enters(text, from, p, r) ==> r < visited.len() && (visited[r as int] || stack.contains(
            r,
        ))
}

/// The successors of every marked epsilon state are marked or wait in `stack`.
spec fn passes_held(
    aut: Automaton,
    text: Seq<char>,
    p: int,
    visited: Seq<bool>,
    stack: Seq<usize>,
) -> bool {
    forall|q: usize, r: usize|
        #![trigger aut.step(text, p, q, p, r)]
        q < visited.len() && visited[q as int] && aut.step(text, p, q, p, r) ==> r < visited.len()
            && (visited[r as int] || stack.contains(r))
}

/// The successors of every marked state that consumes the character at `p` wait
/// in `back`.
spec fn moves_held(
    aut: Automaton,
    text: Seq<char>,
    p: int,
    visited: Seq<bool>,
    back: Seq<usize>,
) -> bool {
    forall|q: usize, r: usize|
        #![trigger aut.step(text, p, q, p + 1, r)]
        q < visited.len() && visited[q as int] && aut.step(text, p, q, p + 1, r) ==> back.contains(
            r,
        )
}

/// Whether a marked state accepts.
spec fn marks_accept(aut: Automaton, visited: Seq<bool>) -> bool {
    exists|q: usize|
        q < visited.len() && #[trigger] visited[q as int] && aut.states[q as int].kind is Accept
}

proof fn lemma_contains_drop_last(s: Seq<usize>, x: usize)
    requires
        s.len() > 0,
        s.contains(x),
    ensures
        s.drop_last().contains(x) || s.last() == x,
{
    let i = choose|i: int| 0 <= i < s.len() && s[i] == x;
    if i < s.len() - 1 {
        assert(s.drop_last()[i] == x);
    }
}

proof fn lemma_contains_add(a: Seq<usize>, b: Seq<usize>, x: usize)
    ensures
        (a + b).contains(x) <==> a.contains(x) || b.contains(x),
{
    if a.contains(x) {
        let i = choose|i: int| 0 <= i < a.len() && a[i] == x;
        assert((a + b)[i] == x);
    }
    if b.contains(x) {
        let i = choose|i: int| 0 <= i < b.len() && b[i] == x;
        assert((a + b)[a.len() + i] == x);
    }
    if (a + b).contains(x) {
        let i = choose|i: int| 0 <= i < (a + b).len() && (a + b)[i] == x;
        if i < a.len() {
            assert(a[i] == x);
        } else {
            assert(b[i - a.len()] == x);
        }
    }
}

/// Whether a member of `set` admits `c`.
pub fn set_contains(set: &Vec<SetSymbol>, c: char) -> (found: bool)
    ensures
        found == in_set(set@, c),
{
    let mut i: usize = 0;
    while i < set.len()
        invariant
            i <= set.len(),
            forall|j: int| 0 <= j < i ==> !member_matches(#[trigger] set@[j], c),
        decreases set.len() - i,
    {
        let hit = match set[i] {
            SetSymbol::Char(x) => x == c,
            SetSymbol::Range(start, end) => c as u32 >= start && c as u32 <= end,
        };
        if hit {
            return true;
        }
        i += 1;
    }
    false
}

/// Whether a state of this type consumes `c`.
pub fn consumes_char(state_type: &StateType, c: char) -> (hit: bool)
    ensures
        hit == state_type@.consumes(c),
{
    match state_type {
        StateType::Symbol(x) => *x == c,
        StateType::Any => true,
        StateType::InSet(set) => set_contains(set, c),
        StateType::NotSet(set) => !set_contains(set, c),
        StateType::Accept => false,
        StateType::Epsilon => false,
    }
}

/// Appends `items` to `stack`.
fn push_all(stack: &mut Vec<usize>, items: &Vec<usize>)
    ensures
        final(stack)@ == old(stack)@ + items@,
{
    let mut i: usize = 0;
    while i < items.len()
        invariant
            i <= items.len(),
            stack@ == old(stack)@ + items@.take(i as int),
        decreases items.len() - i,
    {
        stack.push(items[i]);
        i += 1;
        proof {
            assert(items@.take(i as int) =~= items@.take(i as int - 1).push(items@[i as int - 1]));
            assert(stack@ =~= old(stack)@ + items@.take(i as int));
        }
    }
    proof {
        assert(items@.take(items.len() as int) =~= items@);
    }
}

/// Whether the node at `ast_node` can be compiled: it is a node of an ordered
/// arena, and the tree under it is well shaped.
spec fn fit(ast: &AST, ast_node: usize) -> bool {
    &&& ordered(ast.arena())
    &&& ast_node < ast.arena().len()
    &&& shaped(tree_at(ast.arena(), ast_node as int))
}

/// Whether states under construction can be built on from `entry`.
spec fn sound(states: Seq<StateNode>, entry: usize) -> bool {
    &&& entry < states.len()
    &&& edges_in_range(states_of(states))
}

/// Whether a construction step that turned `before` into `after` and returned
/// `exit` made the piece `fragment`.
spec fn built(
    fragment: Fragment,
    before: Seq<StateNode>,
    after: Seq<StateNode>,
    exit: usize,
) -> bool {
    &&& states_of(after) == fragment.states
    &&& exit == fragment.exit
    &&& extends(states_of(before), states_of(after))
    &&& sound(after, exit)
}

/// The tree under the only child of the node at `ast_node`.
spec fn child_of(ast: &AST, ast_node: usize) -> Tree {
    tree_at(ast.arena(), ast_node as int).children[0]
}

/// What holds of a quantifier node that is fit: its child is fit too.
proof fn lemma_fit_child(ast: &AST, ast_node: usize)
    requires
        fit(ast, ast_node),
        ast.arena()[ast_node as int].kind.is_quantifier(),
    ensures
        ast.nodes@[ast_node as int].children@.len() == 1,
        ast.nodes@[ast_node as int].children@[0] < ast_node,
        fit(ast, ast.nodes@[ast_node as int].children@[0]),
        child_of(ast, ast_node) == tree_at(
            ast.arena(),
            ast.nodes@[ast_node as int].children@[0] as int,
        ),
{
    lemma_tree_at(ast.arena(), ast_node as int);
    let tree = tree_at(ast.arena(), ast_node as int);
    assert(ast.arena()[ast_node as int].children[0] < ast_node);
    assert(shaped(tree.children[0]));
}

/// What holds of any node that is fit: each child is fit too.
proof fn lemma_fit_children(ast: &AST, ast_node: usize, k: int)
    requires
        fit(ast, ast_node),
        0 <= k < ast.nodes@[ast_node as int].children@.len(),
    ensures
        ast.nodes@[ast_node as int].children@[k] < ast_node,
        fit(ast, ast.nodes@[ast_node as int].children@[k]),
        tree_at(ast.arena(), ast_node as int).children[k] == tree_at(
            ast.arena(),
            ast.nodes@[ast_node as int].children@[k] as int,
        ),
{
    lemma_tree_at(ast.arena(), ast_node as int);
    let tree = tree_at(ast.arena(), ast_node as int);
    assert(ast.arena()[ast_node as int].children[k] < ast_node);
    assert(shaped(tree.children[k]));
}

/// Adds a state without successors and returns its index.
fn push_state(states: &mut Vec<StateNode>, state_type: StateType) -> (index: usize)
    requires
        edges_in_range(states_of(old(states)@)),
    ensures
        states_of(final(states)@) == add_state(states_of(old(states)@), state_type@),
        final(states)@.len() == old(states)@.len() + 1,
        index == old(states)@.len(),
        edges_in_range(states_of(final(states)@)),
        !(state_type@ is Accept) ==> extends(states_of(old(states)@), states_of(final(states)@)),
{
    states.push(StateNode { state_type, next: Vec::new() });
    proof {
        assert(states_of(states@) =~= add_state(states_of(old(states)@), state_type@));
        let after = states_of(states@);
        assert forall|q: int, k: int|
            0 <= q < after.len() && 0 <= k < after[q].next.len() implies (#[trigger] after[q].next[k])
            < after.len() by {
            if q < old(states)@.len() {
                assert(after[q] == states_of(old(states)@)[q]);
                assert(states_of(old(states)@)[q].next[k] < old(states)@.len());
            }
        }
    }
    states.len() - 1
}

/// Adds an edge.
fn push_edge(states: &mut Vec<StateNode>, from: usize, to: usize)
    requires
        from < old(states)@.len(),
        to < old(states)@.len(),
        edges_in_range(states_of(old(states)@)),
    ensures
        states_of(final(states)@) == add_edge(states_of(old(states)@), from, to),
        final(states)@.len() == old(states)@.len(),
        edges_in_range(states_of(final(states)@)),
        extends(states_of(old(states)@), states_of(final(states)@)),
{
    let node = &mut states[from];
    node.next.push(to);
    proof {
        assert(states_of(states@) =~= add_edge(states_of(old(states)@), from, to));
        let before = states_of(old(states)@);
        let after = states_of(states@);
        assert forall|q: int, k: int|
            0 <= q < after.len() && 0 <= k < after[q].next.len() implies (#[trigger] after[q].next[k])
            < after.len() by {
            if q == from && k == before[q].next.len() {
            } else {
                assert(after[q].next[k] == before[q].next[k]);
            }
        }
    }
}

/// A copy of a class.
fn copy_set(set: &Vec<SetSymbol>) -> (copy: Vec<SetSymbol>)
    ensures
        copy@ == set@,
{
    let mut copy: Vec<SetSymbol> = Vec::new();
    let mut i: usize = 0;
    while i < set.len()
        invariant
            i <= set.len(),
            copy@ == set@.take(i as int),
        decreases set.len() - i,
    {
        copy.push(set[i]);
        i += 1;
        proof {
            assert(copy@ =~= set@.take(i as int));
        }
    }
    proof {
        assert(set@.take(set.len() as int) =~= set@);
    }
    copy
}

impl Regex {
    /// Every index names a state, and the last state is the only accepting one.
    #[verifier::type_invariant]
    spec fn well_formed(self) -> bool {
        self.states@.wf() && self.states@.accepts_last()
    }

    /// Compiles a pattern. It fails where the pattern is not one of the grammar, or
    /// where a bound or a class range in it is not valid.
    pub fn compile(code: &str) -> (result: Result<Regex, ParseError>)
        ensures
            match parse_at(code@, 0) {
                Ok((tree, _)) => {
                    &&& result matches Ok(regex)
                    &&& regex@ == automaton_of(tree)
                    &&& regex@.wf()
                    &&& regex@.accepts_last()
                },
                Err(fault) => result matches Err(error) && error@ == fault_text(fault),
            },
    {
        let mut lexer = Lexer::new(code);
        let ast = match parse_regex(&mut lexer) {
            Ok(ast) => ast,
            Err(error) => {
                return Err(error);
            },
        };
        let mut nodes: Vec<StateNode> = Vec::new();
        nodes.push(StateNode { state_type: StateType::Epsilon, next: Vec::new() });
        proof {
            assert(states_of(nodes@) =~= seq![
                State { kind: StateKind::Epsilon, next: Seq::empty() },
            ]);
        }
        Regex::init(&mut nodes, ast);
        Ok(Regex { states: States { nodes, starting_state: 0 } })
    }

    /// Builds the automaton of `ast` behind the state at index 0 and ends it with
    /// the accepting state.
    fn init(nodes: &mut Vec<StateNode>, ast: AST)
        requires
            ast.wf(),
            old(nodes)@.len() == 1,
            sound(old(nodes)@, 0),
        ensures
            states_of(final(nodes)@) == add_edge(
                add_state(build(ast@, states_of(old(nodes)@), 0).states, StateKind::Accept),
                build(ast@, states_of(old(nodes)@), 0).exit,
                build(ast@, states_of(old(nodes)@), 0).states.len() as usize,
            ),
            sound(final(nodes)@, 0),
            !(states_of(old(nodes)@)[0].kind is Accept) ==> (Automaton {
                states: states_of(final(nodes)@),
                start: 0,
            }).accepts_last(),
    {
        let end_state = Regex::compile_next(nodes, 0, &ast, ast.start_node);
        let ghost body = states_of(nodes@);
        let state = push_state(nodes, StateType::Accept);
        let ghost ended = states_of(nodes@);
        push_edge(nodes, end_state, state);
        proof {
            let after = states_of(nodes@);
            let begin = states_of(old(nodes)@);
            assert(after[state as int] == ended[state as int]);
            if !(begin[0].kind is Accept) {
                assert forall|q: int| 0 <= q < after.len() - 1 implies !((#[trigger] after[q]).kind
                    is Accept) by {
                    assert(after[q].kind == ended[q].kind);
                    assert(ended[q] == body[q]);
                    if q == 0 {
                        assert(body[0].kind == begin[0].kind);
                    }
                }
            }
        }
    }

    fn compile_next(
        nodes: &mut Vec<StateNode>,
        prev_state: usize,
        ast: &AST,
        ast_node: usize,
    ) -> (exit: usize)
        requires
            fit(ast, ast_node),
            sound(old(nodes)@, prev_state),
        ensures
            built(
                build(tree_at(ast.arena(), ast_node as int), states_of(old(nodes)@), prev_state),
                old(nodes)@,
                final(nodes)@,
                exit,
            ),
        decreases ast_node, 2nat,
    {
        proof {
            lemma_tree_at(ast.arena(), ast_node as int);
        }
        match ast.nodes[ast_node].node_type {
            SyntaxType::ZeroOrMore => Regex::compile_zero_or_more(nodes, prev_state, ast, ast_node),
            SyntaxType::Optional => Regex::compile_optional(nodes, prev_state, ast, ast_node),
            SyntaxType::OneOrMore => Regex::compile_one_or_more(nodes, prev_state, ast, ast_node),
            SyntaxType::Once => Regex::compile_once(nodes, prev_state, ast, ast_node),
            SyntaxType::Or => Regex::compile_or(nodes, prev_state, ast, ast_node),
            SyntaxType::From(_) => Regex::compile_from(nodes, prev_state, ast, ast_node),
            SyntaxType::To(_) => Regex::compile_to(nodes, prev_state, ast, ast_node),
            SyntaxType::Between(_, _) => Regex::compile_between(nodes, prev_state, ast, ast_node),
            SyntaxType::Symbol(_) => Regex::compile_atomic(nodes, prev_state, ast, ast_node),
            SyntaxType::InSet(_) => Regex::compile_atomic(nodes, prev_state, ast, ast_node),
            SyntaxType::NotSet(_) => Regex::compile_atomic(nodes, prev_state, ast, ast_node),
            SyntaxType::Any => Regex::compile_atomic(nodes, prev_state, ast, ast_node),
        }
    }

    fn compile_zero_or_more(
        nodes: &mut Vec<StateNode>,
        prev_state: usize,
        ast: &AST,
        ast_node: usize,
    ) -> (exit: usize)
        requires
            fit(ast, ast_node),
            ast.arena()[ast_node as int].kind.is_quantifier(),
            sound(old(nodes)@, prev_state),
        ensures
            built(
                zero_or_more(child_of(ast, ast_node), states_of(old(nodes)@), prev_state),
                old(nodes)@,
                final(nodes)@,
                exit,
            ),
        decreases ast_node, 0nat,
    {
        proof {
            lemma_fit_child(ast, ast_node);
        }
        let node = &ast.nodes[ast_node];
        let next_state = Regex::compile_next(nodes, prev_state, ast, node.children[0]);
        push_edge(nodes, next_state, prev_state);
        prev_state
    }

    fn compile_optional(
        nodes: &mut Vec<StateNode>,
        prev_state: usize,
        ast: &AST,
        ast_node: usize,
    ) -> (exit: usize)
        requires
            fit(ast, ast_node),
            ast.arena()[ast_node as int].kind.is_quantifier(),
            sound(old(nodes)@, prev_state),
        ensures
            built(
                optional(child_of(ast, ast_node), states_of(old(nodes)@), prev_state),
                old(nodes)@,
                final(nodes)@,
                exit,
            ),
        decreases ast_node, 0nat,
    {
        proof {
            lemma_fit_child(ast, ast_node);
        }
        let node = &ast.nodes[ast_node];
        let next_state = Regex::compile_next(nodes, prev_state, ast, node.children[0]);
        let state = push_state(nodes, StateType::Epsilon);
        push_edge(nodes, prev_state, state);
        push_edge(nodes, next_state, state);
        state
    }

    fn compile_one_or_more(
        nodes: &mut Vec<StateNode>,
        prev_state: usize,
        ast: &AST,
        ast_node: usize,
    ) -> (exit: usize)
        requires
            fit(ast, ast_node),
            ast.arena()[ast_node as int].kind.is_quantifier(),
            sound(old(nodes)@, prev_state),
        ensures
            built(
                one_or_more(child_of(ast, ast_node), states_of(old(nodes)@), prev_state),
                old(nodes)@,
                final(nodes)@,
                exit,
            ),
        decreases ast_node, 0nat,
    {
        proof {
            lemma_fit_child(ast, ast_node);
        }
        let node = &ast.nodes[ast_node];
        let next_state = Regex::compile_next(nodes, prev_state, ast, node.children[0]);
        push_edge(nodes, next_state, prev_state);
        next_state
    }

    fn compile_once(
        nodes: &mut Vec<StateNode>,
        prev_state: usize,
        ast: &AST,
        ast_node: usize,
    ) -> (exit: usize)
        requires
            fit(ast, ast_node),
            sound(old(nodes)@, prev_state),
        ensures
            built(
                chain(
                    tree_at(ast.arena(), ast_node as int).children,
                    states_of(old(nodes)@),
                    prev_state,
                ),
                old(nodes)@,
                final(nodes)@,
                exit,
            ),
        decreases ast_node, 0nat,
    {
        let node = &ast.nodes[ast_node];
        let ghost trees = tree_at(ast.arena(), ast_node as int).children;
        let ghost begin = states_of(nodes@);
        let mut next_state = prev_state;
        let mut i: usize = 0;
        proof {
            lemma_tree_at(ast.arena(), ast_node as int);
            assert(trees.take(0) =~= Seq::<Tree>::empty());
        }
        while i < node.children.len()
            invariant
                fit(ast, ast_node),
                node == &ast.nodes@[ast_node as int],
                trees == tree_at(ast.arena(), ast_node as int).children,
                trees.len() == node.children@.len(),
                i <= node.children.len(),
                extends(begin, states_of(nodes@)),
                sound(nodes@, next_state),
                (Fragment { states: states_of(nodes@), exit: next_state }) == chain(
                    trees.take(i as int),
                    begin,
                    prev_state,
                ),
            decreases node.children.len() - i,
        {
            proof {
                lemma_fit_children(ast, ast_node, i as int);
                assert(trees.take(i + 1).drop_last() =~= trees.take(i as int));
            }
            next_state = Regex::compile_next(nodes, next_state, ast, node.children[i]);
            i += 1;
        }
        proof {
            assert(trees.take(i as int) =~= trees);
        }
        next_state
    }

    fn compile_or(
        nodes: &mut Vec<StateNode>,
        prev_state: usize,
        ast: &AST,
        ast_node: usize,
    ) -> (exit: usize)
        requires
            fit(ast, ast_node),
            sound(old(nodes)@, prev_state),
        ensures
            built(
                either(
                    tree_at(ast.arena(), ast_node as int).children,
                    states_of(old(nodes)@),
                    prev_state,
                ),
                old(nodes)@,
                final(nodes)@,
                exit,
            ),
        decreases ast_node, 0nat,
    {
        let node = &ast.nodes[ast_node];
        let ghost trees = tree_at(ast.arena(), ast_node as int).children;
        let ghost begin = states_of(nodes@);
        let mut next_state: Vec<usize> = Vec::new();
        let mut i: usize = 0;
        proof {
            lemma_tree_at(ast.arena(), ast_node as int);
            assert(trees.take(0) =~= Seq::<Tree>::empty());
        }
        while i < node.children.len()
            invariant
                fit(ast, ast_node),
                node == &ast.nodes@[ast_node as int],
                trees == tree_at(ast.arena(), ast_node as int).children,
                trees.len() == node.children@.len(),
                i <= node.children.len(),
                extends(begin, states_of(nodes@)),
                sound(nodes@, prev_state),
                forall|k: int| 0 <= k < next_state@.len() ==> (#[trigger] next_state@[k]) < nodes@.len(),
                (states_of(nodes@), next_state@) == branches(trees.take(i as int), begin, prev_state),
            decreases node.children.len() - i,
        {
            proof {
                lemma_fit_children(ast, ast_node, i as int);
                assert(trees.take(i + 1).drop_last() =~= trees.take(i as int));
            }
            let exit = Regex::compile_next(nodes, prev_state, ast, node.children[i]);
            next_state.push(exit);
            i += 1;
        }
        proof {
            assert(trees.take(i as int) =~= trees);
        }
        let state = push_state(nodes, StateType::Epsilon);
        let ghost joined = states_of(nodes@);
        let mut j: usize = 0;
        proof {
            assert(next_state@.take(0) =~= Seq::<usize>::empty());
        }
        while j < next_state.len()
            invariant
                j <= next_state.len(),
                state < nodes@.len(),
                extends(begin, states_of(nodes@)),
                edges_in_range(states_of(nodes@)),
                forall|k: int| 0 <= k < next_state@.len() ==> (#[trigger] next_state@[k]) < nodes@.len(),
                states_of(nodes@) == add_edges(joined, next_state@.take(j as int), state),
            decreases next_state.len() - j,
        {
            proof {
                assert(next_state@.take(j + 1).drop_last() =~= next_state@.take(j as int));
            }
            push_edge(nodes, next_state[j], state);
            j += 1;
        }
        proof {
            assert(next_state@.take(j as int) =~= next_state@);
        }
        state
    }

    fn compile_from(
        nodes: &mut Vec<StateNode>,
        prev_state: usize,
        ast: &AST,
        ast_node: usize,
    ) -> (exit: usize)
        requires
            fit(ast, ast_node),
            ast.arena()[ast_node as int].kind is From,
            sound(old(nodes)@, prev_state),
        ensures
            built(
                at_least(
                    child_of(ast, ast_node),
                    ast.arena()[ast_node as int].kind->From_0 as nat,
                    states_of(old(nodes)@),
                    prev_state,
                ),
                old(nodes)@,
                final(nodes)@,
                exit,
            ),
        decreases ast_node, 1nat,
    {
        proof {
            lemma_fit_child(ast, ast_node);
        }
        if let SyntaxType::From(from) = ast.nodes[ast_node].node_type {
            if from == 0 {
                Regex::compile_one_or_more(nodes, prev_state, ast, ast_node)
            } else {
                let node = &ast.nodes[ast_node];
                let next_state = Regex::compile_copies(nodes, prev_state, ast, node.children[0], from);
                let state = push_state(nodes, StateType::Epsilon);
                push_edge(nodes, next_state, state);
                Regex::compile_zero_or_more(nodes, state, ast, ast_node);
                state
            }
        } else {
            unreached()
        }
    }

    /// `count` copies of the tree at `child`, one behind the other.
    fn compile_copies(
        nodes: &mut Vec<StateNode>,
        prev_state: usize,
        ast: &AST,
        child: usize,
        count: usize,
    ) -> (exit: usize)
        requires
            fit(ast, child),
            sound(old(nodes)@, prev_state),
        ensures
            built(
                repeat(
                    tree_at(ast.arena(), child as int),
                    count as nat,
                    states_of(old(nodes)@),
                    prev_state,
                ),
                old(nodes)@,
                final(nodes)@,
                exit,
            ),
        decreases child, 3nat,
    {
        let ghost begin = states_of(nodes@);
        let mut next_state = prev_state;
        let mut i: usize = 0;
        while i < count
            invariant
                fit(ast, child),
                i <= count,
                extends(begin, states_of(nodes@)),
                sound(nodes@, next_state),
                (Fragment { states: states_of(nodes@), exit: next_state }) == repeat(
                    tree_at(ast.arena(), child as int),
                    i as nat,
                    begin,
                    prev_state,
                ),
            decreases count - i,
        {
            next_state = Regex::compile_next(nodes, next_state, ast, child);
            i += 1;
        }
        next_state
    }

    /// `count` copies of the tree at `child`, one behind the other, the exit of
    /// each leading to `join`.
    fn compile_copies_joined(
        nodes: &mut Vec<StateNode>,
        prev_state: usize,
        ast: &AST,
        child: usize,
        count: usize,
        join: usize,
    ) -> (exit: usize)
        requires
            fit(ast, child),
            sound(old(nodes)@, prev_state),
            join < old(nodes)@.len(),
        ensures
            built(
                repeat_joined(
                    tree_at(ast.arena(), child as int),
                    count as nat,
                    states_of(old(nodes)@),
                    prev_state,
                    join,
                ),
                old(nodes)@,
                final(nodes)@,
                exit,
            ),
        decreases child, 3nat,
    {
        let ghost begin = states_of(nodes@);
        let mut next_state = prev_state;
        let mut i: usize = 0;
        while i < count
            invariant
                fit(ast, child),
                i <= count,
                join < nodes@.len(),
                extends(begin, states_of(nodes@)),
                sound(nodes@, next_state),
                (Fragment { states: states_of(nodes@), exit: next_state }) == repeat_joined(
                    tree_at(ast.arena(), child as int),
                    i as nat,
                    begin,
                    prev_state,
                    join,
                ),
            decreases count - i,
        {
            next_state = Regex::compile_next(nodes, next_state, ast, child);
            push_edge(nodes, next_state, join);
            i += 1;
        }
        next_state
    }

    fn compile_to(
        nodes: &mut Vec<StateNode>,
        prev_state: usize,
        ast: &AST,
        ast_node: usize,
    ) -> (exit: usize)
        requires
            fit(ast, ast_node),
            ast.arena()[ast_node as int].kind is To,
            sound(old(nodes)@, prev_state),
        ensures
            built(
                at_most(
                    child_of(ast, ast_node),
                    ast.arena()[ast_node as int].kind->To_0 as nat,
                    states_of(old(nodes)@),
                    prev_state,
                ),
                old(nodes)@,
                final(nodes)@,
                exit,
            ),
        decreases ast_node, 1nat,
    {
        proof {
            lemma_fit_child(ast, ast_node);
        }
        if let SyntaxType::To(to) = ast.nodes[ast_node].node_type {
            let node = &ast.nodes[ast_node];
            let state = push_state(nodes, StateType::Epsilon);
            push_edge(nodes, prev_state, state);
            Regex::compile_copies_joined(nodes, prev_state, ast, node.children[0], to, state);
            state
        } else {
            unreached()
        }
    }

    fn compile_between(
        nodes: &mut Vec<StateNode>,
        prev_state: usize,
        ast: &AST,
        ast_node: usize,
    ) -> (exit: usize)
        requires
            fit(ast, ast_node),
            ast.arena()[ast_node as int].kind is Between,
            sound(old(nodes)@, prev_state),
        ensures
            built(
                between(
                    child_of(ast, ast_node),
                    ast.arena()[ast_node as int].kind->Between_0 as nat,
                    ast.arena()[ast_node as int].kind->Between_1 as nat,
                    states_of(old(nodes)@),
                    prev_state,
                ),
                old(nodes)@,
                final(nodes)@,
                exit,
            ),
        decreases ast_node, 1nat,
    {
        proof {
            lemma_fit_child(ast, ast_node);
        }
        if let SyntaxType::Between(from, to) = ast.nodes[ast_node].node_type {
            let node = &ast.nodes[ast_node];
            let next_state = Regex::compile_copies(nodes, prev_state, ast, node.children[0], from);
            let state = push_state(nodes, StateType::Epsilon);
            push_edge(nodes, next_state, state);
            let further = if to >= from {
                to - from
            } else {
                0
            };
            Regex::compile_copies_joined(nodes, next_state, ast, node.children[0], further, state);
            state
        } else {
            unreached()
        }
    }

    fn compile_atomic(
        nodes: &mut Vec<StateNode>,
        prev_state: usize,
        ast: &AST,
        ast_node: usize,
    ) -> (exit: usize)
        requires
            fit(ast, ast_node),
            ast.arena()[ast_node as int].kind.is_atom(),
            sound(old(nodes)@, prev_state),
        ensures
            built(
                atomic(ast.arena()[ast_node as int].kind, states_of(old(nodes)@), prev_state),
                old(nodes)@,
                final(nodes)@,
                exit,
            ),
    {
        let node = &ast.nodes[ast_node];
        let state_type = match &node.node_type {
            SyntaxType::Symbol(c) => StateType::Symbol(*c),
            SyntaxType::InSet(set) => StateType::InSet(copy_set(set)),
            SyntaxType::NotSet(set) => StateType::NotSet(copy_set(set)),
            SyntaxType::Any => StateType::Any,
            _ => unreached(),
        };
        let state = push_state(nodes, state_type);
        push_edge(nodes, prev_state, state);
        state
    }

    /// The automaton as a flowchart, for inspection.
    pub fn to_string(&self) -> (text: String)
        ensures
            text@ == state_chart(self@.states),
    {
        self.states.to_string()
    }

    /// Whether the pattern matches the whole of `string`.
    pub fn test(&self, string: &str) -> (accepted: bool)
        ensures
            accepted == (self@.longest_match(string@, 0) == string@.len()),
    {
        let chars = chars_of(string);
        self.simulate_states(&chars, 0) == chars.len()
    }

    /// All matches in `string`, from left to right, as pairs of start and length in
    /// characters. No two of them overlap and none is empty.
    pub fn matches(&self, string: &str) -> (found: Vec<(usize, usize)>)
        ensures
            found@ == self@.scan(string@, 0),
            separate(found@, 0, string@.len() as int),
            stitched(string@, found@, 0) == string@,
    {
        let chars = chars_of(string);
        let mut found: Vec<(usize, usize)> = Vec::new();
        let mut i: usize = 0;
        while i < chars.len()
            invariant
                i <= chars.len(),
                self@.scan(chars@, 0) == found@ + self@.scan(chars@, i as int),
            decreases chars.len() - i,
        {
            let size_of_found = self.simulate_states(&chars, i);
            proof {
                self@.lemma_longest_match_bounds(chars@, i as int);
            }
            if size_of_found != 0 {
                found.push((i, size_of_found));
                i += size_of_found;
            } else {
                i += 1;
            }
            proof {
                assert(self@.scan(chars@, 0) =~= found@ + self@.scan(chars@, i as int));
            }
        }
        proof {
            assert(found@ + Seq::<(usize, usize)>::empty() =~= found@);
            lemma_matches_partition(self@, string@);
        }
        found
    }

    /// Whether a match that is not empty starts anywhere in `string`.
    pub fn is_match(&self, string: &str) -> (matched: bool)
        ensures
            matched == self@.matches_somewhere(string@),
    {
        self.first_match(string).is_some()
    }

    /// The first match in `string` that is not empty, as start and length in
    /// characters.
    pub fn first_match(&self, string: &str) -> (span: Option<(usize, usize)>)
        ensures
            self@.first_match(string@, span),
            span is Some == self@.matches_somewhere(string@),
    {
        let chars = chars_of(string);
        let mut i: usize = 0;
        while i < chars.len()
            invariant
                i <= chars.len(),
                chars@ == string@,
                self@.no_match_before(chars@, i as int),
            decreases chars.len() - i,
        {
            let size_of_found = self.simulate_states(&chars, i);
            if size_of_found != 0 {
                return Some((i, size_of_found));
            }
            i += 1;
        }
        None
    }

    /// The length of the longest match that starts at `offset`.
    fn simulate_states(&self, chars: &Vec<char>, offset: usize) -> (length: usize)
        ensures
            length == self@.longest_match(chars@, offset as int),
    {
        proof {
            use_type_invariant(self);
        }
        if offset >= chars.len() {
            return 0;
        }
        let n = self.states.nodes.len();
        let ghost aut = self@;
        let ghost text = chars@;
        let ghost from = offset as int;
        let mut best: usize = offset;
        let mut pos: usize = offset;
        let mut stack: Vec<usize> = Vec::new();
        let mut stack_back: Vec<usize> = Vec::new();
        stack.push(self.states.starting_state);
        proof {
            aut.lemma_reaches_start(text, from);
            assert forall|r: usize| aut.enters(text, from, from, r) implies stack@.contains(r) by {
                aut.lemma_enters_first(text, from, r);
                assert(stack@[0] == aut.start);
            }
        }
        loop
            invariant_except_break
                stack_back@.len() == 0,
                best as int == aut.best_end(text, from, pos - 1),
                all_reached(aut, text, from, pos as int, stack@),
                forall|r: usize|
                    #![trigger aut.enters(text, from, pos as int, r)]
                    aut.enters(text, from, pos as int, r) ==> stack@.contains(r),
            invariant
                n == self.states.nodes.len(),
                aut == self@,
                aut.wf(),
                text == chars@,
                from == offset,
                offset <= pos <= chars.len(),
                offset < chars.len(),
            ensures
                best as int == aut.best_end(text, from, text.len() as int),
            decreases chars.len() - pos,
        {
            let mut visited: Vec<bool> = vec![false; n];
            let mut accepted = false;
            while stack.len() > 0
                invariant
                    n == self.states.nodes.len(),
                    aut == self@,
                    aut.wf(),
                    text == chars@,
                    from == offset,
                    offset <= pos <= chars.len(),
                    visited.len() == n,
                    all_reached(aut, text, from, pos as int, stack@),
                    all_reached(aut, text, from, pos + 1, stack_back@),
                    marks_reached(aut, text, from, pos as int, visited@),
                    entries_held(aut, text, from, pos as int, visited@, stack@),
                    passes_held(aut, text, pos as int, visited@, stack@),
                    moves_held(aut, text, pos as int, visited@, stack_back@),
                    accepted == marks_accept(aut, visited@),
                decreases count_unset(visited@), stack.len(),
            {
                let ghost stack_before = stack@;
                let ghost visited_before = visited@;
                let ghost back_before = stack_back@;
                let q = stack.pop().unwrap();
                proof {
                    assert(stack_before[stack_before.len() - 1] == q);
                    assert forall|r: usize| stack_before.contains(r) implies stack@.contains(r) || r
                        == q by {
                        lemma_contains_drop_last(stack_before, r);
                    }
                }
                if !visited[q] {
                    visited[q] = true;
                    proof {
                        lemma_count_unset_update(visited_before, q as int);
                    }
                    let node = &self.states.nodes[q];
                    assert(aut.states[q as int] == node@);
                    match &node.state_type {
                        StateType::Epsilon => {
                            push_all(&mut stack, &node.next);
                        },
                        StateType::Accept => {
                            accepted = true;
                        },
                        _ => {
                            if pos < chars.len() && consumes_char(&node.state_type, chars[pos]) {
                                push_all(&mut stack_back, &node.next);
                            }
                        },
                    }
                    proof {
                        let kind = aut.states[q as int].kind;
                        let next = aut.states[q as int].next;
                        assert forall|r: usize| #[trigger] next.contains(r) implies r
                            < aut.states.len() by {
                            let k = choose|k: int| 0 <= k < next.len() && next[k] == r;
                            assert(aut.states[q as int].next[k] < aut.states.len());
                        }
                        assert forall|r: usize| stack_before.contains(r) implies stack@.contains(r)
                            || r == q by {
                            lemma_contains_drop_last(stack_before, r);
                            lemma_contains_add(stack_before.drop_last(), next, r);
                        }
                        assert forall|r: usize| back_before.contains(r) implies stack_back@.contains(
                            r,
                        ) by {
                            lemma_contains_add(back_before, next, r);
                        }
                        assert(all_reached(aut, text, from, pos as int, stack@)) by {
                            assert forall|k: int| 0 <= k < stack@.len() implies (#[trigger] stack@[k])
                                < aut.states.len() && aut.reaches(
                                text,
                                from,
                                pos as int,
                                stack@[k],
                            ) by {
                                if k >= stack_before.len() - 1 {
                                    let r = stack@[k];
                                    assert(next[k - (stack_before.len() - 1)] == r);
                                    assert(next.contains(r));
                                    assert(aut.step(text, pos as int, q, pos as int, r));
                                    aut.lemma_reaches_step(text, from, pos as int, q, pos as int, r);
                                } else {
                                    assert(stack@[k] == stack_before[k]);
                                }
                            }
                        }
                        assert(all_reached(aut, text, from, pos + 1, stack_back@)) by {
                            assert forall|k: int| 0 <= k < stack_back@.len() implies (
                            #[trigger] stack_back@[k]) < aut.states.len() && aut.reaches(
                                text,
                                from,
                                pos + 1,
                                stack_back@[k],
                            ) by {
                                if k >= back_before.len() {
                                    let r = stack_back@[k];
                                    assert(next[k - back_before.len()] == r);
                                    assert(next.contains(r));
                                    assert(aut.step(text, pos as int, q, pos + 1, r));
                                    aut.lemma_reaches_step(text, from, pos as int, q, pos + 1, r);
                                } else {
                                    assert(stack_back@[k] == back_before[k]);
                                }
                            }
                        }
                        assert(marks_reached(aut, text, from, pos as int, visited@));
                        assert(entries_held(aut, text, from, pos as int, visited@, stack@));
                        assert(passes_held(aut, text, pos as int, visited@, stack@)) by {
                            assert forall|q0: usize, r: usize|
                                #![trigger aut.step(text, pos as int, q0, pos as int, r)]
                                q0 < visited@.len() && visited@[q0 as int] && aut.step(
                                    text,
                                    pos as int,
                                    q0,
                                    pos as int,
                                    r,
                                ) implies r < visited@.len() && (visited@[r as int]
                                || stack@.contains(r)) by {
                                if q0 == q {
                                    lemma_contains_add(stack_before.drop_last(), next, r);
                                } else {
                                    assert(visited_before[q0 as int]);
                                }
                            }
                        }
                        assert(moves_held(aut, text, pos as int, visited@, stack_back@)) by {
                            assert forall|q0: usize, r: usize|
                                #![trigger aut.step(text, pos as int, q0, pos + 1, r)]
                                q0 < visited@.len() && visited@[q0 as int] && aut.step(
                                    text,
                                    pos as int,
                                    q0,
                                    pos + 1,
                                    r,
                                ) implies stack_back@.contains(r) by {
                                if q0 == q {
                                    lemma_contains_add(back_before, next, r);
                                } else {
                                    assert(visited_before[q0 as int]);
                                }
                            }
                        }
                        assert(accepted == marks_accept(aut, visited@)) by {
                            if marks_accept(aut, visited_before) {
                                let w = choose|w: usize|
                                    w < visited_before.len() && #[trigger] visited_before[w as int]
                                        && aut.states[w as int].kind is Accept;
                                assert(visited@[w as int]);
                            }
                            if kind is Accept {
                                assert(visited@[q as int]);
                            }
                            if marks_accept(aut, visited@) {
                                let w = choose|w: usize|
                                    w < visited@.len() && #[trigger] visited@[w as int]
                                        && aut.states[w as int].kind is Accept;
                                if w != q {
                                    assert(visited_before[w as int]);
                                }
                            }
                        }
                    }
                }
            }
            proof {
                // the marked states are exactly those reached at `pos`
                assert forall|q: usize| aut.reaches(text, from, pos as int, q) implies q < n
                    && visited@[q as int] by {
                    assert forall|r: usize| aut.enters(text, from, pos as int, r) implies visited@[r as int] by {
                        assert(!stack@.contains(r));
                    }
                    assert forall|q0: usize, r: usize|
                        #![trigger aut.step(text, pos as int, q0, pos as int, r)]
                        q0 < aut.states.len() && visited@[q0 as int] && aut.step(
                            text,
                            pos as int,
                            q0,
                            pos as int,
                            r,
                        ) implies visited@[r as int] by {
                        assert(!stack@.contains(r));
                    }
                    aut.lemma_closure_complete(text, from, pos as int, visited@, q);
                }
                assert(accepted == aut.accepts_at(text, from, pos as int)) by {
                    if accepted {
                        let w = choose|w: usize|
                            w < visited@.len() && #[trigger] visited@[w as int]
                                && aut.states[w as int].kind is Accept;
                        assert(aut.reaches(text, from, pos as int, w));
                    }
                    if aut.accepts_at(text, from, pos as int) {
                        let w = choose|w: usize|
                            #![trigger aut.reaches(text, from, pos as int, w)]
                            aut.reaches(text, from, pos as int, w) && w < aut.states.len()
                                && aut.states[w as int].kind is Accept;
                        assert(visited@[w as int]);
                    }
                }
            }
            if accepted {
                best = pos;
            }
            assert(best as int == aut.best_end(text, from, pos as int));
            let ghost after = pos as int + 1;
            if stack_back.len() == 0 {
                proof {
                    if pos < chars.len() {
                        assert(!aut.alive(text, from, after)) by {
                            if aut.alive(text, from, after) {
                                let q = choose|q: usize| aut.reaches(text, from, after, q);
                                assert forall|r: usize|
                                    aut.enters(text, from, after, r) implies false by {
                                    let q0 = aut.lemma_enters_later(text, from, after, r);
                                    assert(aut.step(text, pos as int, q0, pos + 1, r));
                                    assert(visited@[q0 as int]);
                                    assert(stack_back@.contains(r));
                                }
                                let dead = Seq::new(n as nat, |i: int| false);
                                aut.lemma_closure_complete(text, from, after, dead, q);
                            }
                        }
                        assert forall|p: int| pos < p <= text.len() implies !aut.accepts_at(
                            text,
                            from,
                            p,
                        ) by {
                            aut.lemma_nothing_later(text, from, after, p);
                        }
                        aut.lemma_best_end_stable(text, from, pos as int, text.len() as int);
                    }
                }
                break ;
            }
            proof {
                // a state waits in `stack_back` only where a character was consumed
                assert(pos < chars.len()) by {
                    let r = stack_back@[0];
                    aut.lemma_reaches_bounds(text, from, after, r);
                }
                assert forall|r: usize|
                    #![trigger aut.enters(text, from, after, r)]
                    aut.enters(text, from, after, r) implies stack_back@.contains(r) by {
                    let q0 = aut.lemma_enters_later(text, from, after, r);
                    assert(aut.step(text, pos as int, q0, pos + 1, r));
                    assert(visited@[q0 as int]);
                }
            }
            std::mem::swap(&mut stack, &mut stack_back);
            pos += 1;
        }
        proof {
            aut.lemma_best_end_bounds(text, from, text.len() as int);
        }
        best - offset
    }
}

} // verus!
