//! Syntax trees as mathematical values, and the way a tree is laid out in an arena
//! of nodes that refer to each other by index.

use crate::lexer::SetSymbol;
use vstd::prelude::*;

verus! {

/// The kind of a syntax node.
pub enum SyntaxKind {
    ZeroOrMore,
    Optional,
    OneOrMore,
    /// A sequence: its children one after the other.
    Once,
    Or,
    From(usize),
    To(usize),
    Between(usize, usize),
    Symbol(char),
    InSet(Seq<SetSymbol>),
    NotSet(Seq<SetSymbol>),
    Any,
}

/// A syntax tree.
pub struct Tree {
    pub kind: SyntaxKind,
    pub children: Seq<Tree>,
}

/// A node of an arena: the children are indices into the arena.
pub struct Node {
    pub kind: SyntaxKind,
    pub children: Seq<usize>,
}

impl SyntaxKind {
    /// Whether a node of this kind repeats its single child.
    pub open spec fn is_quantifier(self) -> bool {
        match self {
            SyntaxKind::ZeroOrMore
            | SyntaxKind::Optional
            | SyntaxKind::OneOrMore
            | SyntaxKind::From(_)
            | SyntaxKind::To(_)
            | SyntaxKind::Between(_, _) => true,
            _ => false,
        }
    }

    /// Whether a node of this kind stands for one character of the subject.
    pub open spec fn is_atom(self) -> bool {
        match self {
            SyntaxKind::Symbol(_)
            | SyntaxKind::InSet(_)
            | SyntaxKind::NotSet(_)
            | SyntaxKind::Any => true,
            _ => false,
        }
    }
}

/// A tree without children.
pub open spec fn leaf(kind: SyntaxKind) -> Tree {
    Tree { kind, children: Seq::empty() }
}

/// A tree with one child.
pub open spec fn wrap(kind: SyntaxKind, child: Tree) -> Tree {
    Tree { kind, children: seq![child] }
}

/// Whether every node has as many children as its kind asks for: an atom none, a
/// quantifier one, a sequence one at least, an alternation two at least.
pub open spec fn shaped(t: Tree) -> bool
    decreases t,
{
    &&& if t.kind.is_atom() {
        t.children.len() == 0
    } else if t.kind.is_quantifier() {
        t.children.len() == 1
    } else if t.kind is Or {
        t.children.len() >= 2
    } else {
        t.children.len() >= 1
    }
    &&& forall|k: int| 0 <= k < t.children.len() ==> shaped(#[trigger] t.children[k])
}

/// The number of nodes of a tree.
pub open spec fn tree_size(t: Tree) -> nat
    decreases t, 1int,
{
    1 + forest_size(t.children)
}

/// The number of nodes of a list of trees.
pub open spec fn forest_size(ts: Seq<Tree>) -> nat
    decreases ts, 0int,
{
    if ts.len() == 0 {
        0
    } else {
        forest_size(ts.drop_last()) + tree_size(ts.last())
    }
}

/// The nodes of a tree in the order in which they enter an arena whose next free
/// index is `base`: the children from left to right, each with all its nodes, then
/// the root.
pub open spec fn layout(t: Tree, base: int) -> Seq<Node>
    decreases t, 1int,
{
    forest_layout(t.children, base).push(
        Node { kind: t.kind, children: forest_roots(t.children, base) },
    )
}

/// The nodes of a list of trees, one tree after the other, from index `base` on.
pub open spec fn forest_layout(ts: Seq<Tree>, base: int) -> Seq<Node>
    decreases ts, 0int,
{
    if ts.len() == 0 {
        Seq::empty()
    } else {
        forest_layout(ts.drop_last(), base) + layout(
            ts.last(),
            base + forest_size(ts.drop_last()),
        )
    }
}

/// The indices at which the roots of a list of trees stand when the list is laid
/// out from index `base` on.
pub open spec fn forest_roots(ts: Seq<Tree>, base: int) -> Seq<usize>
    decreases ts.len(),
{
    if ts.len() == 0 {
        Seq::empty()
    } else {
        forest_roots(ts.drop_last(), base).push((base + forest_size(ts) - 1) as usize)
    }
}

/// Whether every child index in the arena is smaller than the index of its parent.
pub open spec fn ordered(nodes: Seq<Node>) -> bool {
    forall|i: int, k: int|
        0 <= i < nodes.len() && 0 <= k < nodes[i].children.len() ==> (
        #[trigger] nodes[i].children[k]) < i
}

/// The tree whose root is the node at index `i`. Only child indices smaller than
/// `i` are followed, as they are in an ordered arena; any other index stands for a
/// leaf.
pub open spec fn tree_at(nodes: Seq<Node>, i: int) -> Tree
    decreases i,
{
    if 0 <= i < nodes.len() {
        Tree {
            kind: nodes[i].kind,
            children: Seq::new(
                nodes[i].children.len(),
                |k: int|
                    if 0 <= k < nodes[i].children.len() && nodes[i].children[k] < i {
                        tree_at(nodes, nodes[i].children[k] as int)
                    } else {
                        leaf(SyntaxKind::Any)
                    },
            ),
        }
    } else {
        leaf(SyntaxKind::Any)
    }
}

/// In an ordered arena the children of the tree at `i` are the trees at the child
/// indices of the node at `i`.
pub proof fn lemma_tree_at(nodes: Seq<Node>, i: int)
    requires
        ordered(nodes),
        0 <= i < nodes.len(),
    ensures
        tree_at(nodes, i).kind == nodes[i].kind,
        tree_at(nodes, i).children.len() == nodes[i].children.len(),
        forall|k: int|
            0 <= k < nodes[i].children.len() ==> (#[trigger] nodes[i].children[k]) < i
                && tree_at(nodes, i).children[k] == tree_at(nodes, nodes[i].children[k] as int),
{
}

/// A tree is laid out in as many nodes as it has.
pub proof fn lemma_layout_len(t: Tree, base: int)
    ensures
        layout(t, base).len() == tree_size(t),
    decreases t, 1int,
{
    lemma_forest_layout_len(t.children, base);
}

/// A list of trees is laid out in as many nodes as it has, with one root each.
pub proof fn lemma_forest_layout_len(ts: Seq<Tree>, base: int)
    ensures
        forest_layout(ts, base).len() == forest_size(ts),
        forest_roots(ts, base).len() == ts.len(),
    decreases ts, 0int,
{
    if ts.len() > 0 {
        lemma_forest_layout_len(ts.drop_last(), base);
        lemma_layout_len(ts.last(), base + forest_size(ts.drop_last()));
        lemma_forest_roots_len(ts, base);
    }
}

/// A list of trees has one root each.
pub proof fn lemma_forest_roots_len(ts: Seq<Tree>, base: int)
    ensures
        forest_roots(ts, base).len() == ts.len(),
    decreases ts.len(),
{
    if ts.len() > 0 {
        lemma_forest_roots_len(ts.drop_last(), base);
    }
}

/// A list of one tree is laid out as that tree.
pub proof fn lemma_forest_single(t: Tree, base: int)
    ensures
        forest_size(seq![t]) == tree_size(t),
        forest_layout(seq![t], base) == layout(t, base),
        forest_roots(seq![t], base) == seq![(base + tree_size(t) - 1) as usize],
{
    let ts = seq![t];
    assert(ts.drop_last() =~= Seq::<Tree>::empty());
    assert(ts.last() == t);
    assert(forest_size(ts.drop_last()) == 0);
    assert(forest_layout(ts.drop_last(), base) =~= Seq::<Node>::empty());
    assert(forest_layout(ts, base) =~= layout(t, base));
    assert(forest_roots(ts.drop_last(), base) =~= Seq::<usize>::empty());
    assert(forest_roots(ts, base) =~= seq![(base + tree_size(t) - 1) as usize]);
}

/// Laying out a list with one more tree at its end.
pub proof fn lemma_forest_push(ts: Seq<Tree>, t: Tree, base: int)
    ensures
        forest_size(ts.push(t)) == forest_size(ts) + tree_size(t),
        forest_layout(ts.push(t), base) == forest_layout(ts, base) + layout(
            t,
            base + forest_size(ts),
        ),
        forest_roots(ts.push(t), base) == forest_roots(ts, base).push(
            (base + forest_size(ts) + tree_size(t) - 1) as usize,
        ),
{
    assert(ts.push(t).drop_last() =~= ts);
    assert(ts.push(t).last() == t);
}

/// Where the layout of `t` stands in `nodes` from index `base` on, the tree at its
/// last index is `t`, and every child index in that part is smaller than the
/// index of its parent and not smaller than `base`.
pub proof fn lemma_layout_tree(nodes: Seq<Node>, base: int, t: Tree)
    requires
        0 <= base,
        base + tree_size(t) <= nodes.len(),
        nodes.len() <= usize::MAX,
        forall|j: int| 0 <= j < tree_size(t) ==> nodes[base + j] == #[trigger] layout(t, base)[j],
    ensures
        tree_at(nodes, base + tree_size(t) - 1) == t,
        forall|j: int, k: int|
            base <= j < base + tree_size(t) && 0 <= k < nodes[j].children.len() ==> base <= (
            #[trigger] nodes[j].children[k]) < j,
    decreases t, 1int,
{
    let ts = t.children;
    let root = base + tree_size(t) - 1;
    lemma_forest_layout_len(ts, base);
    assert(nodes[base + forest_size(ts)] == layout(t, base)[forest_size(ts) as int]);
    assert(nodes[root].children == forest_roots(ts, base));
    assert forall|j: int| 0 <= j < forest_size(ts) implies nodes[base + j]
        == #[trigger] forest_layout(ts, base)[j] by {
        assert(layout(t, base)[j] == forest_layout(ts, base)[j]);
    }
    lemma_layout_forest(nodes, base, ts);
    assert(tree_at(nodes, root).children =~= ts) by {
        assert forall|k: int| 0 <= k < ts.len() implies tree_at(nodes, root).children[k]
            == ts[k] by {
            assert(nodes[root].children[k] == forest_roots(ts, base)[k]);
        }
    }
    assert forall|j: int, k: int|
        base <= j < base + tree_size(t) && 0 <= k < nodes[j].children.len() implies base <= (
        #[trigger] nodes[j].children[k]) < j by {
        if j == root {
            assert(nodes[root].children[k] == forest_roots(ts, base)[k]);
        }
    }
}

/// The same for a list of trees: the tree at each root index is the tree of the
/// list, and the root indices lie inside the part that the list takes up.
pub proof fn lemma_layout_forest(nodes: Seq<Node>, base: int, ts: Seq<Tree>)
    requires
        0 <= base,
        base + forest_size(ts) <= nodes.len(),
        nodes.len() <= usize::MAX,
        forall|j: int|
            0 <= j < forest_size(ts) ==> nodes[base + j] == #[trigger] forest_layout(ts, base)[j],
    ensures
        forest_roots(ts, base).len() == ts.len(),
        forall|k: int|
            0 <= k < ts.len() ==> base <= (#[trigger] forest_roots(ts, base)[k]) < base
                + forest_size(ts) && tree_at(nodes, forest_roots(ts, base)[k] as int) == ts[k],
        forall|j: int, k: int|
            base <= j < base + forest_size(ts) && 0 <= k < nodes[j].children.len() ==> base <= (
            #[trigger] nodes[j].children[k]) < j,
    decreases ts, 0int,
{
    lemma_forest_roots_len(ts, base);
    if ts.len() > 0 {
        let init = ts.drop_last();
        let last = ts.last();
        let mid = base + forest_size(init);
        lemma_forest_layout_len(init, base);
        lemma_layout_len(last, mid);
        assert forall|j: int| 0 <= j < forest_size(init) implies nodes[base + j]
            == #[trigger] forest_layout(init, base)[j] by {
            assert(forest_layout(ts, base)[j] == forest_layout(init, base)[j]);
        }
        assert forall|j: int| 0 <= j < tree_size(last) implies nodes[mid + j] == #[trigger] layout(
            last,
            mid,
        )[j] by {
            assert(forest_layout(ts, base)[forest_size(init) + j] == layout(last, mid)[j]);
            assert(nodes[base + (forest_size(init) + j)] == forest_layout(ts, base)[forest_size(
                init,
            ) + j]);
        }
        lemma_layout_forest(nodes, base, init);
        lemma_layout_tree(nodes, mid, last);
        assert forall|k: int| 0 <= k < ts.len() implies base <= (#[trigger] forest_roots(
            ts,
            base,
        )[k]) < base + forest_size(ts) && tree_at(nodes, forest_roots(ts, base)[k] as int)
            == ts[k] by {
            if k < ts.len() - 1 {
                assert(forest_roots(ts, base)[k] == forest_roots(init, base)[k]);
                assert(ts[k] == init[k]);
            }
        }
    }
}

} // verus!
