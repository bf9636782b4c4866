//! The parser: tokens to a syntax tree that lives in an arena.
//!
//! Each function here reads what the function of the same place in
//! [`crate::grammar`] describes, and is proved to return exactly that. Whatever
//! does not succeed, a part that does not apply as much as a pattern that is not
//! valid, leaves the lexer and the arena as they were.

use crate::grammar::{
    alternation_at, atom_at, bounds_fault, branches_at, class_fault, concat_at, fault_text,
    group_at, in_band, lemma_concat_at, lemma_prepend_end, lemma_prepend_none,
    lemma_prepend_push, lemma_regex_at, lemma_value_at, onward, parse_at, prepend,
    quantifier_of,
    regex_at, symbol_at, value_at, values_at, Parsed,
};
use crate::lexer::{
    lemma_next_token, push_members, token_view, Lexer, LexerView, SetSymbol, Token,
};
use crate::syntax::{
    forest_layout, forest_roots, forest_size, layout, leaf, lemma_forest_layout_len,
    lemma_forest_push, lemma_forest_single, lemma_layout_len, lemma_layout_tree, lemma_tree_at,
    ordered, shaped, tree_at, wrap, Node, SyntaxKind, Tree,
};
use crate::render::{
    chart_head, forest_text, joined, lisp_text, member_debug, members_debug,
    push_row, syntax_chart, syntax_debug, syntax_rows, syntax_text,
};
use crate::text::{push_char_debug, push_decimal, push_string, string_of};
use vstd::prelude::*;

verus! {

/// The kind of a node of the syntax tree.
#[derive(Debug)]
pub enum SyntaxType {
    ZeroOrMore,
    Optional,
    OneOrMore,
    Once,
    Or,
    From(usize),
    To(usize),
    Between(usize, usize),
    Symbol(char),
    InSet(Vec<SetSymbol>),
    NotSet(Vec<SetSymbol>),
    Any,
}

impl View for SyntaxType {
    type V = SyntaxKind;

    open spec fn view(&self) -> SyntaxKind {
        match *self {
            SyntaxType::ZeroOrMore => SyntaxKind::ZeroOrMore,
            SyntaxType::Optional => SyntaxKind::Optional,
            SyntaxType::OneOrMore => SyntaxKind::OneOrMore,
            SyntaxType::Once => SyntaxKind::Once,
            SyntaxType::Or => SyntaxKind::Or,
            SyntaxType::From(min) => SyntaxKind::From(min),
            SyntaxType::To(max) => SyntaxKind::To(max),
            SyntaxType::Between(min, max) => SyntaxKind::Between(min, max),
            SyntaxType::Symbol(c) => SyntaxKind::Symbol(c),
            SyntaxType::InSet(members) => SyntaxKind::InSet(members@),
            SyntaxType::NotSet(members) => SyntaxKind::NotSet(members@),
            SyntaxType::Any => SyntaxKind::Any,
        }
    }
}

impl SyntaxType {
    /// The plain name of the kind, as a diagram shows it.
    pub fn to_string(&self) -> (text: String)
        ensures
            text@ == syntax_text(self@),
    {
        let mut out: Vec<char> = Vec::new();
        match self {
            SyntaxType::ZeroOrMore => push_string("ZeroOrMore", &mut out),
            SyntaxType::Optional => push_string("Optional", &mut out),
            SyntaxType::OneOrMore => push_string("OneOrMore", &mut out),
            SyntaxType::Once => push_string("Once", &mut out),
            SyntaxType::Or => push_string("Or", &mut out),
            SyntaxType::From(min) => {
                push_string("From ", &mut out);
                push_decimal(*min, &mut out);
            },
            SyntaxType::To(max) => {
                push_string("To ", &mut out);
                push_decimal(*max, &mut out);
            },
            SyntaxType::Between(min, max) => {
                push_string("Between ", &mut out);
                push_decimal(*min, &mut out);
                push_string(" and ", &mut out);
                push_decimal(*max, &mut out);
            },
            SyntaxType::Symbol(c) => {
                push_string("Symbol ", &mut out);
                out.push(*c);
            },
            SyntaxType::InSet(set) => push_members(set, &mut out),
            SyntaxType::NotSet(set) => {
                push_string("not ", &mut out);
                push_members(set, &mut out);
            },
            SyntaxType::Any => push_string("Any", &mut out),
        }
        proof {
            assert(out@ =~= syntax_text(self@));
        }
        string_of(&out)
    }
}

/// Appends the members of a class in constructor form, as a list in square
/// brackets.
fn push_members_debug(set: &Vec<SetSymbol>, out: &mut Vec<char>)
    ensures
        final(out)@ == old(out)@ + members_debug(set@),
{
    let ghost parts = set@.map_values(|m: SetSymbol| member_debug(m));
    push_string("[", out);
    let ghost head = out@;
    let mut i: usize = 0;
    proof {
        assert(parts.take(0) =~= Seq::<Seq<char>>::empty());
        assert(out@ =~= head + joined(parts.take(0), ", "@));
    }
    while i < set.len()
        invariant
            i <= set.len(),
            parts == set@.map_values(|m: SetSymbol| member_debug(m)),
            out@ == head + joined(parts.take(i as int), ", "@),
        decreases set.len() - i,
    {
        if i > 0 {
            push_string(", ", out);
        }
        match set[i] {
            SetSymbol::Char(c) => {
                push_string("Char(", out);
                push_char_debug(c, out);
                push_string(")", out);
            },
            SetSymbol::Range(start, end) => {
                push_string("Range(", out);
                push_decimal(start as usize, out);
                push_string(", ", out);
                push_decimal(end as usize, out);
                push_string(")", out);
            },
        }
        proof {
            assert(parts.take(i + 1).drop_last() =~= parts.take(i as int));
            assert(parts.take(i + 1).last() == member_debug(set@[i as int]));
            assert(out@ =~= head + joined(parts.take(i + 1), ", "@));
        }
        i += 1;
    }
    push_string("]", out);
    proof {
        assert(parts.take(set.len() as int) =~= parts);
        assert(out@ =~= old(out)@ + members_debug(set@));
    }
}

/// Why a pattern could not be parsed: a message.
#[derive(Debug)]
pub struct ParseError {
    msg: String,
}

impl View for ParseError {
    type V = Seq<char>;

    closed spec fn view(&self) -> Seq<char> {
        self.msg@
    }
}

impl ParseError {
    /// An error with the message `msg`.
    pub fn new(msg: &str) -> (error: ParseError)
        ensures
            error@ == msg@,
    {
        ParseError { msg: msg.to_owned() }
    }

    /// The message.
    pub fn to_string(&self) -> (text: String)
        ensures
            text@ == self@,
    {
        self.msg.clone()
    }
}

/// One node of the arena.
pub struct ASTNode {
    pub node_type: SyntaxType,
    pub children: Vec<usize>,
}

impl View for ASTNode {
    type V = Node;

    open spec fn view(&self) -> Node {
        Node { kind: self.node_type@, children: self.children@ }
    }
}

/// The values of a list of nodes.
pub open spec fn nodes_of(nodes: Seq<ASTNode>) -> Seq<Node> {
    Seq::new(nodes.len(), |i: int| nodes[i]@)
}

/// A syntax tree: an arena of nodes and the index of the root.
pub struct AST {
    pub nodes: Box<Vec<ASTNode>>,
    pub start_node: usize,
}

impl View for AST {
    type V = Tree;

    /// The tree under the root.
    open spec fn view(&self) -> Tree {
        tree_at(self.arena(), self.start_node as int)
    }
}

impl AST {
    /// The tree as text. With `lisp` it is the tree under the root in list form:
    /// each node as an opening parenthesis, its children, its kind in constructor
    /// form and a closing parenthesis. Without, it is a flowchart of the arena.
    pub fn to_string(&self, lisp: bool) -> (text: String)
        requires
            self.start_node < self.arena().len(),
            ordered(self.arena()),
        ensures
            text@ == if lisp {
                lisp_text(self@)
            } else {
                syntax_chart(self.arena())
            },
    {
        let mut out: Vec<char> = Vec::new();
        if lisp {
            self.to_string_helper(self.start_node, &mut out);
        } else {
            AST::push_string("```mermaid\n", &mut out);
            AST::push_string("flowchart LR\n", &mut out);
            let ghost head = out@;
            let mut i: usize = 0;
            proof {
                assert(out@ =~= head + syntax_rows(self.arena(), 0));
            }
            while i < self.nodes.len()
                invariant
                    i <= self.nodes@.len(),
                    head == chart_head(),
                    out@ == head + syntax_rows(self.arena(), i as nat),
                decreases self.nodes@.len() - i,
            {
                let node = &self.nodes[i];
                let label = node.node_type.to_string();
                push_row(i, label.as_str(), &node.children, &mut out);
                proof {
                    assert(self.arena()[i as int] == node@);
                    assert(out@ =~= head + syntax_rows(self.arena(), (i + 1) as nat));
                }
                i += 1;
            }
            AST::push_string("```\n", &mut out);
            proof {
                assert(out@ =~= syntax_chart(self.arena()));
            }
        }
        string_of(&out)
    }

    /// Appends the tree under the node at `node` in list form.
    fn to_string_helper(&self, node: usize, out: &mut Vec<char>)
        requires
            node < self.arena().len(),
            ordered(self.arena()),
        ensures
            final(out)@ == old(out)@ + lisp_text(tree_at(self.arena(), node as int)),
        decreases node,
    {
        let ghost tree = tree_at(self.arena(), node as int);
        proof {
            lemma_tree_at(self.arena(), node as int);
        }
        out.push('(');
        let ghost head = out@;
        let children = &self.nodes[node].children;
        let mut k: usize = 0;
        proof {
            assert(tree.children.take(0) =~= Seq::<Tree>::empty());
            assert(out@ =~= head + forest_text(tree.children.take(0)));
        }
        while k < children.len()
            invariant
                node < self.arena().len(),
                ordered(self.arena()),
                children == &self.nodes@[node as int].children,
                tree == tree_at(self.arena(), node as int),
                tree.children.len() == children@.len(),
                forall|j: int|
                    0 <= j < children@.len() ==> (#[trigger] children@[j]) < node
                        && tree.children[j] == tree_at(self.arena(), children@[j] as int),
                k <= children.len(),
                out@ == head + forest_text(tree.children.take(k as int)),
            decreases children.len() - k,
        {
            self.to_string_helper(children[k], out);
            proof {
                assert(tree.children.take(k + 1).drop_last() =~= tree.children.take(k as int));
                assert(out@ =~= head + forest_text(tree.children.take(k + 1)));
            }
            k += 1;
        }
        AST::push_token(&self.nodes[node].node_type, out);
        out.push(')');
        proof {
            reveal_strlit("(");
            reveal_strlit(")");
            assert(tree.children.take(children.len() as int) =~= tree.children);
            assert(self.arena()[node as int].kind == self.nodes@[node as int].node_type@);
            assert("("@ =~= seq!['(']);
            assert(")"@ =~= seq![')']);
            assert(out@ =~= old(out)@ + lisp_text(tree));
        }
    }

    /// Appends the kind of a node in constructor form.
    fn push_token(token: &SyntaxType, out: &mut Vec<char>)
        ensures
            final(out)@ == old(out)@ + syntax_debug(token@),
    {
        match token {
            SyntaxType::ZeroOrMore => AST::push_string("ZeroOrMore", out),
            SyntaxType::Optional => AST::push_string("Optional", out),
            SyntaxType::OneOrMore => AST::push_string("OneOrMore", out),
            SyntaxType::Once => AST::push_string("Once", out),
            SyntaxType::Or => AST::push_string("Or", out),
            SyntaxType::From(min) => {
                AST::push_string("From(", out);
                push_decimal(*min, out);
                AST::push_string(")", out);
            },
            SyntaxType::To(max) => {
                AST::push_string("To(", out);
                push_decimal(*max, out);
                AST::push_string(")", out);
            },
            SyntaxType::Between(min, max) => {
                AST::push_string("Between(", out);
                push_decimal(*min, out);
                AST::push_string(", ", out);
                push_decimal(*max, out);
                AST::push_string(")", out);
            },
            SyntaxType::Symbol(c) => {
                AST::push_string("Symbol(", out);
                push_char_debug(*c, out);
                AST::push_string(")", out);
            },
            SyntaxType::InSet(set) => {
                AST::push_string("Set(", out);
                push_members_debug(set, out);
                AST::push_string(")", out);
            },
            SyntaxType::NotSet(set) => {
                AST::push_string("NotSet(", out);
                push_members_debug(set, out);
                AST::push_string(")", out);
            },
            SyntaxType::Any => AST::push_string("Any", out),
        }
        proof {
            assert(out@ =~= old(out)@ + syntax_debug(token@));
        }
    }

    fn push_string(string: &str, out: &mut Vec<char>)
        ensures
            final(out)@ == old(out)@ + string@,
    {
        push_string(string, out);
    }

    /// The nodes of the arena.
    pub open spec fn arena(&self) -> Seq<Node> {
        nodes_of(self.nodes@)
    }

    /// The root is a node of the arena, every node stands behind its children, and
    /// every node has as many children as its kind asks for.
    pub open spec fn wf(&self) -> bool {
        &&& self.start_node < self.nodes@.len()
        &&& ordered(self.arena())
        &&& shaped(self@)
    }
}

/// What a parsing function found.
enum Outcome {
    /// The index of the root of what was parsed.
    Done(usize),
    Miss(ParseError),
    Bad(ParseError),
}

/// Whether a parsing function did what the grammar says: on success the lexer
/// stands behind what was parsed and the arena has grown by the layout of the
/// tree, whose root is its last node; on a miss and on a fault both are as they
/// were.
spec fn agrees(
    outcome: Outcome,
    expected: Parsed<Tree>,
    before: LexerView,
    after: LexerView,
    old_nodes: Seq<Node>,
    nodes: Seq<Node>,
) -> bool {
    &&& after.text == before.text
    &&& match expected {
        Parsed::Done(tree, end) => {
            &&& outcome matches Outcome::Done(root)
            &&& after.pos == end
            &&& nodes == old_nodes + layout(tree, old_nodes.len() as int)
            &&& root == nodes.len() - 1
        },
        Parsed::Miss(fault) => {
            &&& outcome matches Outcome::Miss(error)
            &&& error@ == fault_text(fault)
            &&& after.pos == before.pos
            &&& nodes == old_nodes
        },
        Parsed::Bad(fault) => {
            &&& outcome matches Outcome::Bad(error)
            &&& error@ == fault_text(fault)
            &&& after.pos == before.pos
            &&& nodes == old_nodes
        },
    }
}

proof fn lemma_nodes_of_push(nodes: Seq<ASTNode>, node: ASTNode)
    ensures
        nodes_of(nodes.push(node)) == nodes_of(nodes).push(node@),
{
    assert(nodes_of(nodes.push(node)) =~= nodes_of(nodes).push(node@));
}

proof fn lemma_nodes_of_take(nodes: Seq<ASTNode>, len: int)
    requires
        0 <= len <= nodes.len(),
    ensures
        nodes_of(nodes.subrange(0, len)) == nodes_of(nodes).subrange(0, len),
{
    assert(nodes_of(nodes.subrange(0, len)) =~= nodes_of(nodes).subrange(0, len));
}

fn push_node(nodes: &mut Vec<ASTNode>, node: ASTNode) -> (index: usize)
    ensures
        final(nodes)@ == old(nodes)@.push(node),
        nodes_of(final(nodes)@) == nodes_of(old(nodes)@).push(node@),
        index == old(nodes)@.len(),
{
    proof {
        lemma_nodes_of_push(nodes@, node);
    }
    nodes.push(node);
    nodes.len() - 1
}

fn create_fallback(lexer: &Lexer, nodes: &Vec<ASTNode>) -> (fallback: (usize, usize))
    ensures
        fallback.0 == lexer@.pos,
        fallback.1 == nodes@.len(),
{
    (lexer.pos(), nodes.len())
}

fn use_fallback(lexer: &mut Lexer, nodes: &mut Vec<ASTNode>, fallback: (usize, usize))
    requires
        fallback.1 <= old(nodes)@.len(),
    ensures
        final(lexer)@.text == old(lexer)@.text,
        final(lexer)@.pos == fallback.0,
        final(nodes)@ == old(nodes)@.subrange(0, fallback.1 as int),
        nodes_of(final(nodes)@) == nodes_of(old(nodes)@).subrange(0, fallback.1 as int),
{
    let (pos, len) = fallback;
    proof {
        lemma_nodes_of_take(nodes@, len as int);
    }
    lexer.seek(pos);
    nodes.truncate(len);
}

fn in_band_ordinal(ordinal: u32) -> (inside: bool)
    ensures
        inside == in_band(ordinal),
{
    ordinal >= 0x30 && ordinal <= 0x7A
}

/// Looks for a range whose bounds are not valid.
fn check_class(set: &Vec<SetSymbol>) -> (error: Option<ParseError>)
    ensures
        match class_fault(set@) {
            Some(fault) => error matches Some(e) && e@ == fault_text(fault),
            None => error is None,
        },
{
    let mut i: usize = 0;
    proof {
        assert(set@.skip(0) =~= set@);
    }
    while i < set.len()
        invariant
            i <= set.len(),
            class_fault(set@) == class_fault(set@.skip(i as int)),
        decreases set.len() - i,
    {
        proof {
            assert(set@.skip(i as int)[0] == set@[i as int]);
            assert(set@.skip(i as int).drop_first() =~= set@.skip(i as int + 1));
        }
        if let SetSymbol::Range(start, end) = set[i] {
            if in_band_ordinal(start) && in_band_ordinal(end) {
                if start > end {
                    return Some(
                        ParseError::new(
                            "the numeric value of start must be less than end in a range",
                        ),
                    );
                }
            } else {
                return Some(ParseError::new("the start and end of a range must a alphanumeric"));
            }
        }
        i += 1;
    }
    None
}

/// A node without children.
fn push_leaf(nodes: &mut Vec<ASTNode>, node_type: SyntaxType) -> (index: usize)
    ensures
        nodes_of(final(nodes)@) == nodes_of(old(nodes)@) + layout(
            leaf(node_type@),
            old(nodes)@.len() as int,
        ),
        index == final(nodes)@.len() - 1,
{
    let ghost base = nodes@.len() as int;
    let index = push_node(nodes, ASTNode { node_type, children: Vec::new() });
    proof {
        let tree = leaf(node_type@);
        assert(forest_layout(tree.children, base) =~= Seq::<Node>::empty());
        assert(forest_roots(tree.children, base) =~= Seq::<usize>::empty());
        assert(nodes_of(nodes@) =~= nodes_of(old(nodes)@) + layout(tree, base));
    }
    index
}

/// A node above the tree `child`, which was laid out last.
fn push_wrap(nodes: &mut Vec<ASTNode>, node_type: SyntaxType, child: usize, Ghost(base): Ghost<
    int,
>, Ghost(tree): Ghost<Tree>) -> (index: usize)
    requires
        0 <= base <= old(nodes)@.len(),
        nodes_of(old(nodes)@).subrange(base, old(nodes)@.len() as int) == layout(tree, base),
        child == old(nodes)@.len() - 1,
    ensures
        nodes_of(final(nodes)@) == nodes_of(old(nodes)@).subrange(0, base) + layout(
            wrap(node_type@, tree),
            base,
        ),
        index == final(nodes)@.len() - 1,
{
    let mut children: Vec<usize> = Vec::new();
    children.push(child);
    let index = push_node(nodes, ASTNode { node_type, children });
    proof {
        lemma_layout_len(tree, base);
        lemma_forest_single(tree, base);
        let above = wrap(node_type@, tree);
        assert(above.children == seq![tree]);
        assert(children@ =~= forest_roots(above.children, base));
        assert(nodes_of(nodes@) =~= nodes_of(old(nodes)@).subrange(0, base) + layout(above, base));
    }
    index
}

fn parse_symbol(lexer: &mut Lexer, nodes: &mut Vec<ASTNode>) -> (outcome: Outcome)
    ensures
        agrees(
            outcome,
            symbol_at(old(lexer)@.text, old(lexer)@.pos),
            old(lexer)@,
            final(lexer)@,
            nodes_of(old(nodes)@),
            nodes_of(final(nodes)@),
        ),
{
    match lexer.peek() {
        Some(Token::Symbol(c)) => {
            lexer.next();
            Outcome::Done(push_leaf(nodes, SyntaxType::Symbol(c)))
        },
        Some(Token::InSet(set)) => {
            match check_class(&set) {
                Some(error) => Outcome::Bad(error),
                None => {
                    lexer.next();
                    Outcome::Done(push_leaf(nodes, SyntaxType::InSet(set)))
                },
            }
        },
        Some(Token::NotSet(set)) => {
            match check_class(&set) {
                Some(error) => Outcome::Bad(error),
                None => {
                    lexer.next();
                    Outcome::Done(push_leaf(nodes, SyntaxType::NotSet(set)))
                },
            }
        },
        Some(Token::Any) => {
            lexer.next();
            Outcome::Done(push_leaf(nodes, SyntaxType::Any))
        },
        _ => Outcome::Miss(ParseError::new("expected symbol")),
    }
}

fn parse_regex_helper(lexer: &mut Lexer, nodes: &mut Vec<ASTNode>) -> (outcome: Outcome)
    ensures
        agrees(
            outcome,
            regex_at(old(lexer)@.text, old(lexer)@.pos),
            old(lexer)@,
            final(lexer)@,
            nodes_of(old(nodes)@),
            nodes_of(final(nodes)@),
        ),
    decreases old(lexer)@.text.len() - old(lexer)@.pos, 7int,
{
    let ghost base = nodes@.len() as int;
    let ghost before = nodes_of(nodes@);
    match parse_or(lexer, nodes) {
        Outcome::Done(child) => {
            let ghost tree = alternation_at(old(lexer)@.text, old(lexer)@.pos)->Done_0;
            proof {
                assert(nodes_of(nodes@).subrange(base, nodes@.len() as int) =~= layout(tree, base));
                assert(nodes_of(nodes@).subrange(0, base) =~= before);
            }
            Outcome::Done(push_wrap(nodes, SyntaxType::Once, child, Ghost(base), Ghost(tree)))
        },
        Outcome::Bad(error) => Outcome::Bad(error),
        Outcome::Miss(_) => parse_concat(lexer, nodes),
    }
}

fn parse_or(lexer: &mut Lexer, nodes: &mut Vec<ASTNode>) -> (outcome: Outcome)
    ensures
        agrees(
            outcome,
            alternation_at(old(lexer)@.text, old(lexer)@.pos),
            old(lexer)@,
            final(lexer)@,
            nodes_of(old(nodes)@),
            nodes_of(final(nodes)@),
        ),
    decreases old(lexer)@.text.len() - old(lexer)@.pos, 6int,
{
    let fallback = create_fallback(lexer, nodes);
    let ghost text = lexer@.text;
    let ghost start = lexer@.pos;
    let ghost base = nodes@.len() as int;
    let ghost before = nodes_of(nodes@);
    let first = match parse_concat(lexer, nodes) {
        Outcome::Done(root) => root,
        Outcome::Miss(error) => {
            return Outcome::Miss(error);
        },
        Outcome::Bad(error) => {
            return Outcome::Bad(error);
        },
    };
    let ghost first_tree = concat_at(text, start)->Done_0;
    let ghost p1 = lexer@.pos;
    let ghost mut trees = seq![first_tree];
    let ghost mut more = Seq::<Tree>::empty();
    let mut children: Vec<usize> = Vec::new();
    children.push(first);
    proof {
        lemma_concat_at(text, start);
        lemma_forest_single(first_tree, base);
        lemma_layout_len(first_tree, base);
        assert(children@ =~= forest_roots(trees, base));
        assert(trees =~= seq![first_tree] + more);
        lemma_prepend_none(branches_at(text, p1));
    }
    loop
        invariant
            lexer@.text == text,
            start < lexer@.pos <= text.len(),
            start == old(lexer)@.pos,
            text == old(lexer)@.text,
            fallback.0 == start,
            fallback.1 == base,
            before == nodes_of(old(nodes)@),
            before.len() == base,
            nodes_of(nodes@) == before + forest_layout(trees, base),
            children@ == forest_roots(trees, base),
            children@.len() == trees.len(),
            trees == seq![first_tree] + more,
            concat_at(text, start) == Parsed::Done(first_tree, p1),
            onward(text, start, p1),
            branches_at(text, p1) == prepend(more, branches_at(text, lexer@.pos)),
        ensures
            lexer@.text == text,
            nodes_of(nodes@) == before + forest_layout(trees, base),
            children@ == forest_roots(trees, base),
            children@.len() == trees.len(),
            trees == seq![first_tree] + more,
            branches_at(text, p1) == Parsed::Done(more, lexer@.pos),
        decreases text.len() - lexer@.pos,
    {
        let ghost here = lexer@.pos;
        match lexer.peek() {
            Some(Token::Or) => {},
            _ => {
                proof {
                    lemma_prepend_end(more, here);
                }
                break ;
            },
        }
        lexer.next();
        proof {
            lemma_next_token(text, here);
            lemma_concat_at(text, lexer@.pos);
            lemma_forest_layout_len(trees, base);
        }
        let ghost branch_start = lexer@.pos;
        let ghost mid = nodes_of(nodes@);
        match parse_concat(lexer, nodes) {
            Outcome::Done(root) => {
                let ghost branch = concat_at(text, branch_start)->Done_0;
                children.push(root);
                proof {
                    lemma_forest_push(trees, branch, base);
                    lemma_layout_len(branch, base + forest_size(trees));
                    lemma_prepend_push(more, branch, branches_at(text, lexer@.pos));
                    assert(trees.push(branch) =~= seq![first_tree] + more.push(branch));
                    trees = trees.push(branch);
                    more = more.push(branch);
                }
            },
            Outcome::Miss(error) => {
                proof {
                    assert(nodes_of(nodes@).len() == nodes@.len());
                    assert(nodes_of(nodes@) == mid);
                    assert(mid.len() == base + forest_size(trees));
                }
                use_fallback(lexer, nodes, fallback);
                proof {
                    assert(nodes_of(nodes@) =~= before);
                }
                return Outcome::Miss(error);
            },
            Outcome::Bad(error) => {
                proof {
                    assert(nodes_of(nodes@).len() == nodes@.len());
                    assert(nodes_of(nodes@) == mid);
                    assert(mid.len() == base + forest_size(trees));
                }
                use_fallback(lexer, nodes, fallback);
                proof {
                    assert(nodes_of(nodes@) =~= before);
                }
                return Outcome::Bad(error);
            },
        }
    }
    if children.len() == 1 {
        proof {
            lemma_forest_layout_len(trees, base);
            assert(nodes_of(nodes@).len() == nodes@.len());
        }
        use_fallback(lexer, nodes, fallback);
        proof {
            assert(nodes_of(nodes@) =~= before);
        }
        Outcome::Miss(ParseError::new("expected or"))
    } else {
        let index = push_node(nodes, ASTNode { node_type: SyntaxType::Or, children });
        proof {
            let tree = Tree { kind: SyntaxKind::Or, children: trees };
            assert(nodes_of(nodes@) =~= before + layout(tree, base));
        }
        Outcome::Done(index)
    }
}

fn parse_concat(lexer: &mut Lexer, nodes: &mut Vec<ASTNode>) -> (outcome: Outcome)
    ensures
        agrees(
            outcome,
            concat_at(old(lexer)@.text, old(lexer)@.pos),
            old(lexer)@,
            final(lexer)@,
            nodes_of(old(nodes)@),
            nodes_of(final(nodes)@),
        ),
    decreases old(lexer)@.text.len() - old(lexer)@.pos, 4int,
{
    let fallback = create_fallback(lexer, nodes);
    let ghost text = lexer@.text;
    let ghost start = lexer@.pos;
    let ghost base = nodes@.len() as int;
    let ghost before = nodes_of(nodes@);
    let first = match parse_value(lexer, nodes) {
        Outcome::Done(root) => root,
        Outcome::Miss(error) => {
            return Outcome::Miss(error);
        },
        Outcome::Bad(error) => {
            return Outcome::Bad(error);
        },
    };
    let ghost first_tree = value_at(text, start)->Done_0;
    let ghost p1 = lexer@.pos;
    let ghost mut trees = seq![first_tree];
    let ghost mut more = Seq::<Tree>::empty();
    let mut children: Vec<usize> = Vec::new();
    children.push(first);
    proof {
        lemma_value_at(text, start);
        lemma_forest_single(first_tree, base);
        lemma_layout_len(first_tree, base);
        assert(children@ =~= forest_roots(trees, base));
        assert(trees =~= seq![first_tree] + more);
        lemma_prepend_none(values_at(text, p1));
    }
    loop
        invariant
            lexer@.text == text,
            start < lexer@.pos <= text.len(),
            start == old(lexer)@.pos,
            text == old(lexer)@.text,
            fallback.0 == start,
            fallback.1 == base,
            before == nodes_of(old(nodes)@),
            before.len() == base,
            nodes_of(nodes@) == before + forest_layout(trees, base),
            children@ == forest_roots(trees, base),
            trees == seq![first_tree] + more,
            value_at(text, start) == Parsed::Done(first_tree, p1),
            onward(text, start, p1),
            values_at(text, p1) == prepend(more, values_at(text, lexer@.pos)),
        ensures
            lexer@.text == text,
            nodes_of(nodes@) == before + forest_layout(trees, base),
            children@ == forest_roots(trees, base),
            trees == seq![first_tree] + more,
            values_at(text, p1) == Parsed::Done(more, lexer@.pos),
        decreases text.len() - lexer@.pos,
    {
        let ghost here = lexer@.pos;
        let ghost mid = nodes_of(nodes@);
        proof {
            lemma_value_at(text, here);
            lemma_forest_layout_len(trees, base);
        }
        match parse_value(lexer, nodes) {
            Outcome::Done(root) => {
                let ghost value = value_at(text, here)->Done_0;
                children.push(root);
                proof {
                    lemma_forest_push(trees, value, base);
                    lemma_layout_len(value, base + forest_size(trees));
                    lemma_prepend_push(more, value, values_at(text, lexer@.pos));
                    assert(trees.push(value) =~= seq![first_tree] + more.push(value));
                    trees = trees.push(value);
                    more = more.push(value);
                }
            },
            Outcome::Miss(_) => {
                proof {
                    lemma_prepend_end(more, here);
                }
                break ;
            },
            Outcome::Bad(error) => {
                proof {
                    assert(nodes_of(nodes@).len() == nodes@.len());
                    assert(nodes_of(nodes@) == mid);
                    assert(mid.len() == base + forest_size(trees));
                }
                use_fallback(lexer, nodes, fallback);
                proof {
                    assert(nodes_of(nodes@) =~= before);
                }
                return Outcome::Bad(error);
            },
        }
    }
    let index = push_node(nodes, ASTNode { node_type: SyntaxType::Once, children });
    proof {
        let tree = Tree { kind: SyntaxKind::Once, children: trees };
        assert(nodes_of(nodes@) =~= before + layout(tree, base));
    }
    Outcome::Done(index)
}

/// The quantifier that a token stands for, if it is valid.
fn quantifier_for(token: Option<Token>) -> (quantifier: Option<Result<SyntaxType, ParseError>>)
    ensures
        match quantifier_of(token_view(token)) {
            Some(kind) => match bounds_fault(kind) {
                Some(fault) => quantifier matches Some(Err(error)) && error@ == fault_text(fault),
                None => quantifier matches Some(Ok(node_type)) && node_type@ == kind,
            },
            None => quantifier is None,
        },
{
    match token {
        Some(Token::ZeroOrMore) => Some(Ok(SyntaxType::ZeroOrMore)),
        Some(Token::Optional) => Some(Ok(SyntaxType::Optional)),
        Some(Token::OneOrMore) => Some(Ok(SyntaxType::OneOrMore)),
        Some(Token::From(num)) => Some(Ok(SyntaxType::From(num))),
        Some(Token::To(num)) => {
            if num == 0 {
                Some(Err(ParseError::new("to must be greater than 0 in range")))
            } else {
                Some(Ok(SyntaxType::To(num)))
            }
        },
        Some(Token::Between(from, to)) => {
            if from > to {
                Some(Err(ParseError::new("from must be lower or equal to to in range")))
            } else if to == 0 {
                Some(Err(ParseError::new("to must be greater than 0 in range")))
            } else {
                Some(Ok(SyntaxType::Between(from, to)))
            }
        },
        _ => None,
    }
}

fn parse_value(lexer: &mut Lexer, nodes: &mut Vec<ASTNode>) -> (outcome: Outcome)
    ensures
        agrees(
            outcome,
            value_at(old(lexer)@.text, old(lexer)@.pos),
            old(lexer)@,
            final(lexer)@,
            nodes_of(old(nodes)@),
            nodes_of(final(nodes)@),
        ),
    decreases old(lexer)@.text.len() - old(lexer)@.pos, 2int,
{
    let fallback = create_fallback(lexer, nodes);
    let ghost text = lexer@.text;
    let ghost start = lexer@.pos;
    let ghost base = nodes@.len() as int;
    let ghost before = nodes_of(nodes@);
    let atom = match parse_symbol(lexer, nodes) {
        Outcome::Done(root) => root,
        Outcome::Bad(error) => {
            return Outcome::Bad(error);
        },
        Outcome::Miss(_) => match parse_bracketed(lexer, nodes) {
            Outcome::Done(root) => root,
            Outcome::Miss(error) => {
                return Outcome::Miss(error);
            },
            Outcome::Bad(error) => {
                return Outcome::Bad(error);
            },
        },
    };
    let ghost tree = atom_at(text, start)->Done_0;
    match quantifier_for(lexer.peek()) {
        Some(Ok(node_type)) => {
            lexer.next();
            proof {
                assert(nodes_of(nodes@).subrange(base, nodes@.len() as int) =~= layout(tree, base));
                assert(nodes_of(nodes@).subrange(0, base) =~= before);
            }
            Outcome::Done(push_wrap(nodes, node_type, atom, Ghost(base), Ghost(tree)))
        },
        Some(Err(error)) => {
            proof {
                lemma_layout_len(tree, base);
                assert(nodes_of(nodes@).len() == nodes@.len());
            }
            use_fallback(lexer, nodes, fallback);
            proof {
                assert(nodes_of(nodes@) =~= before);
            }
            Outcome::Bad(error)
        },
        None => Outcome::Done(atom),
    }
}

fn parse_bracketed(lexer: &mut Lexer, nodes: &mut Vec<ASTNode>) -> (outcome: Outcome)
    ensures
        agrees(
            outcome,
            group_at(old(lexer)@.text, old(lexer)@.pos),
            old(lexer)@,
            final(lexer)@,
            nodes_of(old(nodes)@),
            nodes_of(final(nodes)@),
        ),
    decreases old(lexer)@.text.len() - old(lexer)@.pos, 0int,
{
    let fallback = create_fallback(lexer, nodes);
    let ghost before = nodes_of(nodes@);
    match lexer.peek() {
        Some(Token::OpenParenthesis) => {
            lexer.next();
        },
        _ => {
            return Outcome::Miss(ParseError::new("expected parenthesis"));
        },
    }
    proof {
        lemma_next_token(old(lexer)@.text, old(lexer)@.pos);
    }
    match parse_regex_helper(lexer, nodes) {
        Outcome::Done(root) => {
            match lexer.next() {
                Some(Token::CloseParenthesis) => Outcome::Done(root),
                _ => {
                    use_fallback(lexer, nodes, fallback);
                    proof {
                        assert(nodes_of(nodes@) =~= before);
                    }
                    Outcome::Miss(ParseError::new("expected regex"))
                },
            }
        },
        Outcome::Miss(_) => {
            use_fallback(lexer, nodes, fallback);
            proof {
                assert(nodes_of(nodes@) =~= before);
            }
            Outcome::Miss(ParseError::new("expected closing parenthesis"))
        },
        Outcome::Bad(error) => {
            use_fallback(lexer, nodes, fallback);
            proof {
                assert(nodes_of(nodes@) =~= before);
            }
            Outcome::Bad(error)
        },
    }
}

/// Parses the pattern that stands behind the lexer's position and takes up the rest
/// of its text. On success the lexer stands at the end of the pattern, the arena
/// holds the nodes of the tree and nothing else, and the root is its last node. On
/// failure the lexer stands where it stood.
pub fn parse_regex(lexer: &mut Lexer) -> (result: Result<AST, ParseError>)
    ensures
        final(lexer)@.text == old(lexer)@.text,
        match parse_at(old(lexer)@.text, old(lexer)@.pos) {
            Ok((tree, end)) => {
                &&& result matches Ok(ast)
                &&& ast.wf()
                &&& ast@ == tree
                &&& ast.arena() == layout(tree, 0)
                &&& ast.start_node == ast.arena().len() - 1
                &&& final(lexer)@.pos == end
            },
            Err(fault) => {
                &&& result matches Err(error)
                &&& error@ == fault_text(fault)
                &&& final(lexer)@.pos == old(lexer)@.pos
            },
        },
{
    let start = lexer.pos();
    let mut nodes: Vec<ASTNode> = Vec::new();
    match parse_regex_helper(lexer, &mut nodes) {
        Outcome::Done(start_node) => {
            if lexer.peek().is_some() {
                lexer.seek(start);
                Err(ParseError::new("unknown symbol"))
            } else {
                let ghost count = nodes.len();
                let ast = AST { nodes: Box::new(nodes), start_node };
                proof {
                    assert(ast.arena().len() == count);
                    let tree = regex_at(old(lexer)@.text, old(lexer)@.pos)->Done_0;
                    lemma_regex_at(old(lexer)@.text, old(lexer)@.pos);
                    lemma_layout_len(tree, 0);
                    assert(ast.arena() =~= layout(tree, 0));
                    lemma_layout_tree(ast.arena(), 0, tree);
                }
                Ok(ast)
            }
        },
        Outcome::Miss(error) => Err(error),
        Outcome::Bad(error) => Err(error),
    }
}

} // verus!
