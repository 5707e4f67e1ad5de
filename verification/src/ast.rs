//! The abstract syntax tree produced by the parse driver.
//!
//! `AstNode` is the executable tree; `Tree` is its mathematical image, used
//! throughout the crate's specifications.

use vstd::prelude::*;
use crate::text::push_char;

verus! {

/// A node of the syntax forest: either a terminal leaf or a nonterminal
/// interior node with its children in the order the driver produced them.
#[derive(PartialEq, Eq, Debug)]
pub enum AstNode {
    Terminal(char),
    NonTerminal(char, Vec<AstNode>),
}

/// The mathematical image of an [`AstNode`].
pub enum Tree {
    Leaf(char),
    Node(char, Seq<Tree>),
}

/// The mathematical image of a node: the same tree with every `Vec` of
/// children read as a sequence.
pub open spec fn tree_of(n: AstNode) -> Tree
    decreases n,
{
    match n {
        AstNode::Terminal(c) => Tree::Leaf(c),
        AstNode::NonTerminal(c, ch) => Tree::Node(c, forest_of(ch@)),
    }
}

/// The mathematical image of a forest, node by node.
pub open spec fn forest_of(s: Seq<AstNode>) -> Seq<Tree>
    decreases s,
{
    if s.len() == 0 {
        Seq::empty()
    } else {
        seq![tree_of(s[0])] + forest_of(s.drop_first())
    }
}

/// A forest's image has one tree per node, in the same order.
pub proof fn lemma_forest_of(s: Seq<AstNode>)
    ensures
        forest_of(s).len() == s.len(),
        forall|i: int| 0 <= i < s.len() ==> forest_of(s)[i] == tree_of(s[i]),
    decreases s,
{
    if s.len() > 0 {
        lemma_forest_of(s.drop_first());
    }
}

impl View for AstNode {
    type V = Tree;

    open spec fn view(&self) -> Tree {
        tree_of(*self)
    }
}

/// A leaf node's image is the leaf tree of its character.
pub proof fn lemma_tree_of_terminal(c: char)
    ensures
        tree_of(AstNode::Terminal(c)) == Tree::Leaf(c),
{
}

/// A forest extended by one node grows its image by that node's tree.
pub proof fn lemma_forest_push(s: Seq<AstNode>, x: AstNode)
    ensures
        forest_of(s.push(x)) == forest_of(s).push(tree_of(x)),
{
    lemma_forest_of(s.push(x));
    lemma_forest_of(s);
    assert forall|i: int| 0 <= i < s.len() + 1 implies forest_of(s.push(x))[i] == forest_of(
        s,
    ).push(tree_of(x))[i] by {
        if i < s.len() {
            assert(s.push(x)[i] == s[i]);
        } else {
            assert(s.push(x)[i] == x);
        }
    }
    assert(forest_of(s.push(x)) =~= forest_of(s).push(tree_of(x)));
}

/// A run of spaces of the given length.
pub open spec fn spaces(n: nat) -> Seq<char> {
    Seq::new(n, |i: int| ' ')
}

/// The textual rendering of a tree: each symbol on a line of its own,
/// indented four spaces per nesting level.
pub open spec fn render(t: Tree, ind: nat) -> Seq<char>
    decreases t,
{
    match t {
        Tree::Leaf(c) => spaces(4 * ind) + seq![c] + seq!['\n'],
        Tree::Node(c, ch) => spaces(4 * ind) + seq![c] + seq!['\n'] + render_seq(ch, ind + 1),
    }
}

/// The renderings of a sequence of trees, one after the other.
pub open spec fn render_seq(ts: Seq<Tree>, ind: nat) -> Seq<char>
    decreases ts,
{
    if ts.len() == 0 {
        Seq::empty()
    } else {
        render(ts[0], ind) + render_seq(ts.drop_first(), ind)
    }
}

/// Rendering distributes over extending a sequence by one tree.
pub proof fn lemma_render_seq_push(ts: Seq<Tree>, t: Tree, ind: nat)
    ensures
        render_seq(ts.push(t), ind) == render_seq(ts, ind) + render(t, ind),
    decreases ts,
{
    let ext = ts.push(t);
    assert(ext[0] == if ts.len() == 0 { t } else { ts[0] });
    assert(render_seq(ext, ind) == render(ext[0], ind) + render_seq(ext.drop_first(), ind));
    if ts.len() == 0 {
        assert(ext.drop_first() =~= Seq::<Tree>::empty());
        assert(render_seq(ext.drop_first(), ind) == Seq::<char>::empty());
        assert(render_seq(ts, ind) == Seq::<char>::empty());
        assert(render_seq(ext, ind) =~= render_seq(ts, ind) + render(t, ind));
    } else {
        assert(ext.drop_first() =~= ts.drop_first().push(t));
        lemma_render_seq_push(ts.drop_first(), t, ind);
        assert(render_seq(ts, ind) == render(ts[0], ind) + render_seq(ts.drop_first(), ind));
        assert(render_seq(ext, ind) =~= render_seq(ts, ind) + render(t, ind));
    }
}

/// The height of a tree: a leaf has height zero, an interior node is one
/// higher than its tallest child.
pub open spec fn tree_height(t: Tree) -> nat
    decreases t,
{
    match t {
        Tree::Leaf(_) => 0,
        Tree::Node(_, ch) => 1 + seq_max_height(ch),
    }
}

/// The largest height among the trees of a sequence, or zero if it is empty.
pub open spec fn seq_max_height(ts: Seq<Tree>) -> nat
    decreases ts,
{
    if ts.len() == 0 {
        0
    } else {
        let rest = seq_max_height(ts.drop_first());
        let first = tree_height(ts[0]);
        if first > rest {
            first
        } else {
            rest
        }
    }
}

/// Every tree in a sequence is at most as tall as the sequence's maximum.
pub proof fn lemma_seq_max_height(ts: Seq<Tree>)
    ensures
        forall|i: int| 0 <= i < ts.len() ==> tree_height(ts[i]) <= seq_max_height(ts),
    decreases ts,
{
    if ts.len() > 0 {
        lemma_seq_max_height(ts.drop_first());
        assert forall|i: int| 0 <= i < ts.len() implies tree_height(ts[i]) <= seq_max_height(ts) by {
            if i > 0 {
                assert(ts.drop_first()[i - 1] == ts[i]);
            }
        }
    }
}

/// Writes `n` levels of indentation (four spaces each) onto the string.
fn push_indent(out: &mut String, n: usize)
    ensures
        final(out)@ == old(out)@ + spaces(4 * n as nat),
{
    let mut j: usize = 0;
    while j < n
        invariant
            j <= n,
            out@ == old(out)@ + spaces(4 * j as nat),
        decreases n - j,
    {
        push_char(out, ' ');
        push_char(out, ' ');
        push_char(out, ' ');
        push_char(out, ' ');
        j = j + 1;
        proof {
            assert(out@ =~= old(out)@ + spaces(4 * j as nat));
        }
    }
}

/// The indented textual dump of a syntax tree, matching [`render`]: each
/// symbol on its own line, children one level deeper.
pub fn print_ast(node: &AstNode, indent: usize) -> (r: String)
    requires
        indent + tree_height(node@) <= usize::MAX,
    ensures
        r@ == render(node@, indent as nat),
    decreases node,
{
    let mut out = String::new();
    push_indent(&mut out, indent);
    match node {
        AstNode::Terminal(c) => {
            push_char(&mut out, *c);
            push_char(&mut out, '\n');
            proof {
                assert(out@ =~= render(node@, indent as nat));
            }
        },
        AstNode::NonTerminal(c, ch) => {
            push_char(&mut out, *c);
            push_char(&mut out, '\n');
            let ghost head: Seq<char> = out@;
            let ghost trees: Seq<Tree> = forest_of(ch@);
            proof {
                lemma_forest_of(ch@);
                lemma_seq_max_height(trees);
                assert(node@ == Tree::Node(*c, trees));
                assert(tree_height(node@) == 1 + seq_max_height(trees));
            }
            let mut i: usize = 0;
            while i < ch.len()
                invariant
                    i <= ch@.len(),
                    *node == AstNode::NonTerminal(*c, *ch),
                    trees == forest_of(ch@),
                    trees.len() == ch@.len(),
                    forall|k: int| 0 <= k < ch@.len() ==> trees[k] == tree_of(ch@[k]),
                    forall|k: int| 0 <= k < trees.len()
                        ==> tree_height(trees[k]) <= seq_max_height(trees),
                    indent + 1 + seq_max_height(trees) <= usize::MAX,
                    out@ == head + render_seq(trees.subrange(0, i as int), indent as nat + 1),
                decreases ch@.len() - i,
            {
                proof {
                    assert(*ch == node->NonTerminal_1);
                    assert(decreases_to!(*node => node->NonTerminal_1));
                    assert(decreases_to!(*ch => ch@));
                    assert(decreases_to!(ch@ => ch@[i as int]));
                    assert(tree_height(trees[i as int]) <= seq_max_height(trees));
                    assert(trees[i as int] == (ch@[i as int])@);
                }
                let piece = print_ast(&ch[i], indent + 1);
                out.append(piece.as_str());
                i = i + 1;
                proof {
                    lemma_render_seq_push(
                        trees.subrange(0, i as int - 1),
                        trees[i as int - 1],
                        indent as nat + 1,
                    );
                    assert(trees.subrange(0, i as int - 1).push(trees[i as int - 1]) =~= trees
                        .subrange(0, i as int));
                }
            }
            proof {
                assert(trees.subrange(0, ch@.len() as int) =~= trees);
                assert(out@ =~= render(node@, indent as nat));
            }
        },
    }
    out
}

} // verus!
