//! The stack machine that a parser drives to shape tokens into a tree.

use crate::lazy_cell::LazyCell;
use crate::node_type::{whitespace, NodeType};
use crate::range::Range;
use crate::rst::layout::{
    child_ok, closed_ok, lemma_closed_later, lemma_closed_preserved, link_of, links_ok, trees_of, Model,
};
use crate::rst::raw::{NodeId, RawNode, RawNodeData, RawNodes};
use crate::rst::tree::{
    leaves, leaves_of, lemma_leaves_of_empty, lemma_leaves_of_push, span, spannable, Tree,
};
use crate::token::{RawToken, Token};
use vstd::prelude::*;

verus! {

/// A node that is still being built: its type and the children that it has
/// so far, each of them complete.
pub struct OpenFrame {
    pub ty: NodeType,
    pub children: Seq<Tree>,
}

/// The tokens as the tree model sees them: tag and span.
pub open spec fn raw_tokens(tokens: Seq<Token<'_>>) -> Seq<RawToken> {
    Seq::new(tokens.len(), |k: int| RawToken { ty: tokens[k].ty, range: tokens[k].range })
}

/// The leaf that a token becomes.
pub open spec fn leaf_of(token: RawToken) -> Tree {
    Tree::Leaf { ty: token.ty, range: token.range }
}

/// The leaves of the tokens `from..to`.
pub open spec fn token_leaves(tokens: Seq<RawToken>, from: int, to: int) -> Seq<Tree> {
    Seq::new((to - from) as nat, |k: int| leaf_of(tokens[from + k]))
}

/// The position of the first token at or after `pos` that is not
/// whitespace, or the end of the tokens.
pub open spec fn whitespace_end(tokens: Seq<RawToken>, pos: int) -> int
    decreases tokens.len() - pos,
{
    if 0 <= pos < tokens.len() && tokens[pos].ty.0 == 1 {
        whitespace_end(tokens, pos + 1)
    } else {
        pos
    }
}

/// Whitespace never ends before it begins, nor after the tokens do.
pub proof fn lemma_whitespace_end(tokens: Seq<RawToken>, pos: int)
    requires
        0 <= pos <= tokens.len(),
    ensures
        pos <= whitespace_end(tokens, pos) <= tokens.len(),
        forall|k: int| pos <= k < whitespace_end(tokens, pos) ==> (#[trigger] tokens[k]).ty.0 == 1,
        whitespace_end(tokens, pos) < tokens.len() ==> tokens[whitespace_end(tokens, pos)].ty.0
            != 1,
    decreases tokens.len() - pos,
{
    if pos < tokens.len() && tokens[pos].ty.0 == 1 {
        lemma_whitespace_end(tokens, pos + 1);
    }
}

/// An open node on the stack: its index and that of the child that was
/// added to it last.
#[derive(Clone, Copy)]
struct Frame {
    parent: NodeId,
    last_child: Option<NodeId>,
}

spec fn is_open(stack: Seq<Frame>, i: int) -> bool {
    exists|k: int| 0 <= k < stack.len() && (#[trigger] stack[k]).parent.0 == i
}

spec fn frame_kids(kids: Seq<Seq<NodeId>>, stack: Seq<Frame>, k: int) -> Seq<NodeId> {
    let ks = kids[stack[k].parent.0 as int];
    if k + 1 < stack.len() {
        ks.drop_last()
    } else {
        ks
    }
}

spec fn frame_end(at: Seq<int>, stack: Seq<Frame>, pos: int, k: int) -> int {
    if k + 1 < stack.len() {
        at[stack[k + 1].parent.0 as int]
    } else {
        pos
    }
}

spec fn frame_ok(
    nodes: Seq<RawNode>,
    m: Model,
    stack: Seq<Frame>,
    tokens: Seq<RawToken>,
    pos: int,
    k: int,
) -> bool {
    let p = stack[k].parent.0 as int;
    &&& 0 <= p < nodes.len()
    &&& nodes[p].data is Composite
    &&& stack[k].last_child == link_of(m.kids[p], m.kids[p].len() - 1)
    &&& (k + 1 < stack.len() ==> m.kids[p].len() > 0 && m.kids[p].last() == stack[k + 1].parent)
    &&& (k == 0 ==> p == 0)
    &&& 0 <= m.at[p] <= frame_end(m.at, stack, pos, k) <= pos
    &&& leaves_of(trees_of(m.sub, frame_kids(m.kids, stack, k))) == tokens.subrange(
        m.at[p],
        frame_end(m.at, stack, pos, k),
    )
}

spec fn state_ok(
    nodes: Seq<RawNode>,
    m: Model,
    stack: Seq<Frame>,
    tokens: Seq<RawToken>,
    pos: int,
) -> bool {
    &&& m.kids.len() == nodes.len()
    &&& m.sub.len() == nodes.len()
    &&& m.at.len() == nodes.len()
    &&& 0 <= pos <= tokens.len()
    &&& (stack.len() == 0 && nodes.len() > 0 ==> !(nodes[0].data is Leaf))
    &&& forall|i: int| 0 <= i < nodes.len() ==> #[trigger] links_ok(nodes, m.kids, i)
    &&& forall|k: int| 0 <= k < stack.len() ==> #[trigger] frame_ok(nodes, m, stack, tokens, pos, k)
    &&& forall|i: int|
        0 <= i < nodes.len() && !is_open(stack, i) ==> #[trigger] closed_ok(
            nodes,
            m,
            tokens,
            pos,
            i,
        )
}

spec fn frames_of(nodes: Seq<RawNode>, m: Model, stack: Seq<Frame>) -> Seq<OpenFrame> {
    Seq::new(
        stack.len(),
        |k: int|
            OpenFrame {
                ty: nodes[stack[k].parent.0 as int].ty,
                children: trees_of(m.sub, frame_kids(m.kids, stack, k)),
            },
    )
}

spec fn linked(nodes: Seq<RawNode>, frame: Frame, id: NodeId) -> Seq<RawNode> {
    match frame.last_child {
        Some(prev) => nodes.update(prev.0 as int, nodes[prev.0 as int].with_next_sibling(id)),
        None => nodes.update(
            frame.parent.0 as int,
            nodes[frame.parent.0 as int].with_first_child(id),
        ),
    }
}

spec fn attached(nodes: Seq<RawNode>, frame: Frame, node: RawNode) -> Seq<RawNode> {
    linked(nodes.push(node), frame, NodeId(nodes.len() as usize))
}

spec fn grown(m: Model, parent: NodeId, id: NodeId, t: Tree, at: int) -> Model {
    Model {
        kids: m.kids.push(Seq::empty()).update(
            parent.0 as int,
            m.kids[parent.0 as int].push(id),
        ),
        sub: m.sub.push(t),
        at: m.at.push(at),
    }
}

spec fn with_last_child(stack: Seq<Frame>, id: NodeId) -> Seq<Frame> {
    stack.update(stack.len() - 1, Frame { parent: stack.last().parent, last_child: Some(id) })
}

/// An open node comes after the open nodes below it on the stack.
proof fn lemma_parents_increase(
    nodes: Seq<RawNode>,
    m: Model,
    stack: Seq<Frame>,
    tokens: Seq<RawToken>,
    pos: int,
    j: int,
    k: int,
)
    requires
        state_ok(nodes, m, stack, tokens, pos),
        0 <= j < k < stack.len(),
    ensures
        stack[j].parent.0 < stack[k].parent.0,
    decreases k - j,
{
    assert(frame_ok(nodes, m, stack, tokens, pos, k - 1));
    assert(frame_ok(nodes, m, stack, tokens, pos, k));
    let p = stack[k - 1].parent.0 as int;
    assert(links_ok(nodes, m.kids, p));
    assert(child_ok(nodes, m.kids, p, m.kids[p].len() - 1));
    if j < k - 1 {
        lemma_parents_increase(nodes, m, stack, tokens, pos, j, k - 1);
    }
}

/// A child of a complete node is not the node at the top of the stack.
proof fn lemma_top_not_a_closed_kid(
    nodes: Seq<RawNode>,
    m: Model,
    stack: Seq<Frame>,
    tokens: Seq<RawToken>,
    pos: int,
    i: int,
    mm: int,
)
    requires
        state_ok(nodes, m, stack, tokens, pos),
        stack.len() > 0,
        0 <= i < nodes.len(),
        0 <= mm < m.kids[i].len(),
        stack.len() >= 2 ==> i != stack[stack.len() - 2].parent.0,
    ensures
        m.kids[i][mm] != stack.last().parent,
        m.kids[i][mm].0 < nodes.len(),
{
    let top = stack.len() - 1;
    let p = stack[top].parent.0 as int;
    assert(links_ok(nodes, m.kids, i));
    assert(child_ok(nodes, m.kids, i, mm));
    assert(frame_ok(nodes, m, stack, tokens, pos, top));
    if m.kids[i][mm].0 == p {
        if top >= 1 {
            let q = stack[top - 1].parent.0 as int;
            assert(frame_ok(nodes, m, stack, tokens, pos, top - 1));
            assert(links_ok(nodes, m.kids, q));
            assert(child_ok(nodes, m.kids, q, m.kids[q].len() - 1));
        } else {
            assert(frame_ok(nodes, m, stack, tokens, pos, 0));
        }
    }
}

spec fn links_kept(
    nodes: Seq<RawNode>,
    m: Model,
    stack: Seq<Frame>,
    node: RawNode,
    t: Tree,
    pos: int,
    i: int,
) -> bool {
    links_ok(
        attached(nodes, stack.last(), node),
        grown(m, stack.last().parent, NodeId(nodes.len() as usize), t, pos).kids,
        i,
    )
}

spec fn closed_kept(
    nodes: Seq<RawNode>,
    m: Model,
    stack: Seq<Frame>,
    tokens: Seq<RawToken>,
    node: RawNode,
    t: Tree,
    pos: int,
    pos2: int,
    i: int,
) -> bool {
    closed_ok(
        attached(nodes, stack.last(), node),
        grown(m, stack.last().parent, NodeId(nodes.len() as usize), t, pos),
        tokens,
        pos2,
        i,
    )
}

spec fn lower_frame_kept(
    nodes: Seq<RawNode>,
    m: Model,
    stack: Seq<Frame>,
    tokens: Seq<RawToken>,
    node: RawNode,
    t: Tree,
    pos: int,
    pos2: int,
    k: int,
) -> bool {
    let id = NodeId(nodes.len() as usize);
    let nodes2 = attached(nodes, stack.last(), node);
    let m2 = grown(m, stack.last().parent, id, t, pos);
    let stack2 = with_last_child(stack, id);
    &&& frame_ok(nodes2, m2, stack2, tokens, pos2, k)
    &&& trees_of(m2.sub, frame_kids(m2.kids, stack2, k)) == trees_of(
        m.sub,
        frame_kids(m.kids, stack, k),
    )
}

/// What `attached` changes in the nodes: the new node is appended, and
/// one node before it gets a link to it.
proof fn lemma_attach_nodes(
    nodes: Seq<RawNode>,
    m: Model,
    stack: Seq<Frame>,
    tokens: Seq<RawToken>,
    pos: int,
    node: RawNode,
) -> (prev: int)
    requires
        state_ok(nodes, m, stack, tokens, pos),
        stack.len() > 0,
        nodes.len() <= usize::MAX,
    ensures
        ({
            let p = stack.last().parent.0 as int;
            let id = NodeId(nodes.len() as usize);
            let nodes2 = attached(nodes, stack.last(), node);
            let old_kids = m.kids[p];
            &&& 0 <= p < nodes.len()
            &&& 0 <= prev < nodes.len()
            &&& prev == (if old_kids.len() > 0 {
                old_kids.last().0 as int
            } else {
                p
            })
            &&& nodes[p].data is Composite
            &&& nodes2.len() == nodes.len() + 1
            &&& nodes2[nodes.len() as int] == node
            &&& forall|i: int| 0 <= i < nodes.len() && i != prev ==> #[trigger] nodes2[i] == nodes[i]
            &&& nodes2[prev].ty == nodes[prev].ty
            &&& nodes2[prev].parent == nodes[prev].parent
            &&& (old_kids.len() > 0 ==> nodes2[prev] == nodes[prev].with_next_sibling(id)
                && nodes[prev].parent == Some(stack.last().parent) && nodes[prev].next_sibling
                is None && p < prev)
            &&& (old_kids.len() == 0 ==> nodes2[p] == nodes[p].with_first_child(id))
            &&& nodes2[p].data is Composite
            &&& nodes2[p].ty == nodes[p].ty
            &&& nodes2[p].parent == nodes[p].parent
            &&& nodes2[p].next_sibling == nodes[p].next_sibling
            &&& (stack.len() == 1 ==> p == 0)
            &&& leaves_of(trees_of(m.sub, old_kids)) == tokens.subrange(m.at[p], pos)
            &&& 0 <= m.at[p] <= pos
        }),
{
    let top = stack.len() - 1;
    let frame = stack.last();
    let p = frame.parent.0 as int;
    let old_kids = m.kids[p];
    assert(frame_ok(nodes, m, stack, tokens, pos, top));
    assert(links_ok(nodes, m.kids, p));
    if old_kids.len() > 0 {
        assert(child_ok(nodes, m.kids, p, old_kids.len() - 1));
        old_kids.last().0 as int
    } else {
        p
    }
}

/// After a node is attached, the links of every node spell its children.
proof fn lemma_attach_links(
    nodes: Seq<RawNode>,
    m: Model,
    stack: Seq<Frame>,
    tokens: Seq<RawToken>,
    pos: int,
    node: RawNode,
    t: Tree,
)
    requires
        state_ok(nodes, m, stack, tokens, pos),
        stack.len() > 0,
        nodes.len() <= usize::MAX,
        node.parent == Some(stack.last().parent),
        node.next_sibling is None,
        node.first_child_spec() is None,
    ensures
        forall|i: int| 0 <= i <= nodes.len() ==> #[trigger] links_kept(nodes, m, stack, node, t, pos, i),
{
    let n = nodes.len() as int;
    let id = NodeId(nodes.len() as usize);
    let frame = stack.last();
    let p = frame.parent.0 as int;
    let nodes2 = attached(nodes, frame, node);
    let m2 = grown(m, frame.parent, id, t, pos);
    let prev = lemma_attach_nodes(nodes, m, stack, tokens, pos, node);
    let old_kids = m.kids[p];
    assert(links_ok(nodes, m.kids, p));
    assert forall|i: int| 0 <= i <= nodes.len() implies #[trigger] links_kept(
        nodes,
        m,
        stack,
        node,
        t,
        pos,
        i,
    ) by {
        if i == n {
            assert(m2.kids[i] =~= Seq::<NodeId>::empty());
        } else if i == p {
            let ks = m2.kids[p];
            assert(ks == old_kids.push(id));
            assert forall|mm: int| 0 <= mm < ks.len() implies #[trigger] child_ok(
                nodes2,
                m2.kids,
                p,
                mm,
            ) by {
                if mm < old_kids.len() {
                    assert(child_ok(nodes, m.kids, p, mm));
                    assert(ks[mm] == old_kids[mm]);
                    let c = old_kids[mm].0 as int;
                    if mm + 1 < old_kids.len() {
                        assert(ks[mm + 1] == old_kids[mm + 1]);
                        assert(nodes[c].next_sibling is Some);
                        assert(c != prev);
                        assert(nodes2[c] == nodes[c]);
                    } else {
                        assert(c == prev);
                        assert(ks[mm + 1] == id);
                    }
                } else {
                    assert(ks[mm] == id);
                    assert(nodes2[n] == node);
                }
            }
            if old_kids.len() == 0 {
                assert(ks[0] == id);
            } else {
                assert(ks[0] == old_kids[0]);
                assert(nodes2[p].data == nodes[p].data);
            }
        } else {
            assert(links_ok(nodes, m.kids, i));
            assert(m2.kids[i] == m.kids[i]);
            assert(nodes2[i].data == nodes[i].data);
            assert forall|mm: int| 0 <= mm < m2.kids[i].len() implies #[trigger] child_ok(
                nodes2,
                m2.kids,
                i,
                mm,
            ) by {
                assert(child_ok(nodes, m.kids, i, mm));
                let c = m.kids[i][mm].0 as int;
                if c == prev {
                    if old_kids.len() > 0 {
                        assert(nodes[prev].parent == Some(NodeId(p as usize)));
                        assert(nodes[c].parent == Some(NodeId(i as usize)));
                        assert(false);
                    } else {
                        assert(nodes2[c].parent == nodes[c].parent);
                        assert(nodes2[c].next_sibling == nodes[c].next_sibling);
                    }
                } else {
                    assert(nodes2[c] == nodes[c]);
                }
            }
        }
    }
}

/// After a node is attached, the nodes that were complete are complete.
proof fn lemma_attach_closed(
    nodes: Seq<RawNode>,
    m: Model,
    stack: Seq<Frame>,
    tokens: Seq<RawToken>,
    pos: int,
    node: RawNode,
    t: Tree,
    pos2: int,
)
    requires
        state_ok(nodes, m, stack, tokens, pos),
        stack.len() > 0,
        nodes.len() <= usize::MAX,
        pos <= pos2,
    ensures
        forall|i: int|
            0 <= i < nodes.len() && !is_open(stack, i) ==> #[trigger] closed_kept(
                nodes,
                m,
                stack,
                tokens,
                node,
                t,
                pos,
                pos2,
                i,
            ),
{
    let n = nodes.len() as int;
    let top = stack.len() - 1;
    let id = NodeId(nodes.len() as usize);
    let frame = stack.last();
    let p = frame.parent.0 as int;
    let nodes2 = attached(nodes, frame, node);
    let m2 = grown(m, frame.parent, id, t, pos);
    let prev = lemma_attach_nodes(nodes, m, stack, tokens, pos, node);
    assert forall|i: int| 0 <= i < n && !is_open(stack, i) implies #[trigger] closed_kept(
        nodes,
        m,
        stack,
        tokens,
        node,
        t,
        pos,
        pos2,
        i,
    ) by {
        assert(closed_ok(nodes, m, tokens, pos, i));
        assert(links_ok(nodes, m.kids, i));
        assert(stack[top].parent.0 == p);
        assert(i != p);
        assert(nodes2[i].ty == nodes[i].ty);
        assert(nodes2[i].data == nodes[i].data);
        assert(m2.kids[i] == m.kids[i]);
        assert(m2.sub[i] == m.sub[i]);
        assert(m2.at[i] == m.at[i]);
        assert forall|mm: int| 0 <= mm < m.kids[i].len() implies m2.sub[(
        #[trigger] m.kids[i][mm]).0 as int] == m.sub[m.kids[i][mm].0 as int] by {
            assert(child_ok(nodes, m.kids, i, mm));
        }
        lemma_closed_preserved(nodes, m, tokens, pos, nodes2, m2, pos2, i);
    }
}

/// After a node is attached, the open nodes below the innermost one are as
/// before.
proof fn lemma_attach_frames(
    nodes: Seq<RawNode>,
    m: Model,
    stack: Seq<Frame>,
    tokens: Seq<RawToken>,
    pos: int,
    node: RawNode,
    t: Tree,
    pos2: int,
)
    requires
        state_ok(nodes, m, stack, tokens, pos),
        stack.len() > 0,
        nodes.len() <= usize::MAX,
        pos <= pos2 <= tokens.len(),
    ensures
        forall|k: int|
            0 <= k < stack.len() - 1 ==> #[trigger] lower_frame_kept(
                nodes,
                m,
                stack,
                tokens,
                node,
                t,
                pos,
                pos2,
                k,
            ),
{
    let n = nodes.len() as int;
    let top = stack.len() - 1;
    let id = NodeId(nodes.len() as usize);
    let frame = stack.last();
    let p = frame.parent.0 as int;
    let nodes2 = attached(nodes, frame, node);
    let m2 = grown(m, frame.parent, id, t, pos);
    let stack2 = with_last_child(stack, id);
    let prev = lemma_attach_nodes(nodes, m, stack, tokens, pos, node);
    assert forall|k: int| 0 <= k < top implies #[trigger] lower_frame_kept(
        nodes,
        m,
        stack,
        tokens,
        node,
        t,
        pos,
        pos2,
        k,
    ) by {
        assert(frame_ok(nodes, m, stack, tokens, pos, k));
        lemma_parents_increase(nodes, m, stack, tokens, pos, k, top);
        let q = stack[k].parent.0 as int;
        assert(q != p);
        assert(stack2[k] == stack[k]);
        assert(stack2[k + 1].parent == stack[k + 1].parent);
        assert(m2.kids[q] == m.kids[q]);
        assert(links_ok(nodes, m.kids, q));
        assert(nodes2[q].data is Composite);
        assert(frame_kids(m2.kids, stack2, k) == frame_kids(m.kids, stack, k));
        let fk = frame_kids(m.kids, stack, k);
        assert forall|mm: int| 0 <= mm < fk.len() implies (#[trigger] fk[mm]).0 < n by {
            assert(fk[mm] == m.kids[q][mm]);
            assert(child_ok(nodes, m.kids, q, mm));
        }
        assert(trees_of(m2.sub, fk) =~= trees_of(m.sub, fk));
        assert(m2.at[q] == m.at[q]);
        assert(frame_ok(nodes, m, stack, tokens, pos, k + 1));
        assert(m2.at[stack[k + 1].parent.0 as int] == m.at[stack[k + 1].parent.0 as int]);
        assert(frame_end(m2.at, stack2, pos2, k) == frame_end(m.at, stack, pos, k));
        assert(frame_ok(nodes2, m2, stack2, tokens, pos2, k));
    }
}

/// A new node joins the children of the node on top of the stack.
proof fn lemma_attach(
    nodes: Seq<RawNode>,
    m: Model,
    stack: Seq<Frame>,
    tokens: Seq<RawToken>,
    pos: int,
    node: RawNode,
    t: Tree,
    pos2: int,
)
    requires
        state_ok(nodes, m, stack, tokens, pos),
        stack.len() > 0,
        nodes.len() <= usize::MAX,
        node.parent == Some(stack.last().parent),
        node.next_sibling is None,
        node.first_child_spec() is None,
        pos <= pos2 <= tokens.len(),
    ensures
        ({
            let id = NodeId(nodes.len() as usize);
            let p = stack.last().parent;
            let nodes2 = attached(nodes, stack.last(), node);
            let m2 = grown(m, p, id, t, pos);
            let stack2 = with_last_child(stack, id);
            &&& nodes2.len() == nodes.len() + 1
            &&& nodes2[nodes.len() as int] == node
            &&& forall|i: int| 0 <= i < nodes.len() ==> (#[trigger] nodes2[i]).ty == nodes[i].ty
            &&& forall|i: int|
                0 <= i <= nodes.len() ==> #[trigger] links_kept(nodes, m, stack, node, t, pos, i)
            &&& forall|i: int|
                0 <= i < nodes.len() && !is_open(stack, i) ==> #[trigger] closed_kept(
                    nodes,
                    m,
                    stack,
                    tokens,
                    node,
                    t,
                    pos,
                    pos2,
                    i,
                )
            &&& forall|k: int|
                0 <= k < stack.len() - 1 ==> #[trigger] lower_frame_kept(
                    nodes,
                    m,
                    stack,
                    tokens,
                    node,
                    t,
                    pos,
                    pos2,
                    k,
                )
            &&& nodes2[p.0 as int].data is Composite
            &&& 0 <= p.0 < nodes.len()
            &&& m2.kids[p.0 as int] == m.kids[p.0 as int].push(id)
            &&& trees_of(m2.sub, m2.kids[p.0 as int]) == trees_of(m.sub, m.kids[p.0 as int]).push(t)
            &&& m2.at[p.0 as int] == m.at[p.0 as int]
            &&& (stack.len() == 1 ==> p.0 == 0)
            &&& leaves_of(trees_of(m.sub, m.kids[p.0 as int])) == tokens.subrange(
                m.at[p.0 as int],
                pos,
            )
            &&& 0 <= m.at[p.0 as int] <= pos
        }),
{
    let n = nodes.len() as int;
    let id = NodeId(nodes.len() as usize);
    let frame = stack.last();
    let p = frame.parent.0 as int;
    let nodes2 = attached(nodes, frame, node);
    let m2 = grown(m, frame.parent, id, t, pos);
    let prev = lemma_attach_nodes(nodes, m, stack, tokens, pos, node);
    lemma_attach_links(nodes, m, stack, tokens, pos, node, t);
    lemma_attach_closed(nodes, m, stack, tokens, pos, node, t, pos2);
    lemma_attach_frames(nodes, m, stack, tokens, pos, node, t, pos2);
    let old_kids = m.kids[p];
    assert(links_ok(nodes, m.kids, p));
    assert forall|i: int| 0 <= i < nodes.len() implies (#[trigger] nodes2[i]).ty == nodes[i].ty by {
        if i != prev {
            assert(nodes2[i] == nodes[i]);
        }
    }
    assert forall|mm: int| 0 <= mm < old_kids.len() implies (#[trigger] old_kids[mm]).0 < n by {
        assert(child_ok(nodes, m.kids, p, mm));
    }
    assert(m2.kids[p] == old_kids.push(id));
    assert(trees_of(m2.sub, m2.kids[p]) =~= trees_of(m.sub, old_kids).push(t));
    assert(nodes2.len() == nodes.len() + 1);
    assert(nodes2[n] == node);
    assert(nodes2[p].data is Composite);
    assert(m2.at[p] == m.at[p]);
    assert(stack.len() == 1 ==> p == 0);
    assert(leaves_of(trees_of(m.sub, old_kids)) == tokens.subrange(m.at[p], pos));
    assert(0 <= m.at[p] <= pos);
}

/// The state of the stack machine that shapes a sequence of tokens into a
/// tree.
pub struct RstBuilder<'f> {
    tokens: &'f [Token<'f>],
    pos: usize,
    nodes: RawNodes,
    stack: Vec<Frame>,
    model: Ghost<Model>,
    counts: Ghost<(nat, nat)>,
}

impl Frame {
    fn add_child(&mut self, nodes: &mut RawNodes, id: NodeId)
        requires
            old(self).parent.0 < old(nodes)@.len(),
            old(nodes)@[old(self).parent.0 as int].data is Composite,
            match old(self).last_child {
                Some(prev) => prev.0 < old(nodes)@.len(),
                None => true,
            },
        ensures
            final(nodes)@ == linked(old(nodes)@, *old(self), id),
            *final(self) == (Frame { parent: old(self).parent, last_child: Some(id) }),
    {
        if let Some(prev) = self.last_child {
            nodes.set_next_sibling(prev, id);
        } else {
            nodes.set_first_child(self.parent, id);
        }
        self.last_child = Some(id);
    }

    fn new_leaf_node(&mut self, nodes: &mut RawNodes, token: Token)
        requires
            old(self).parent.0 < old(nodes)@.len(),
            old(nodes)@[old(self).parent.0 as int].data is Composite,
            match old(self).last_child {
                Some(prev) => prev.0 < old(nodes)@.len(),
                None => true,
            },
        ensures
            final(nodes)@ == attached(
                old(nodes)@,
                *old(self),
                RawNode {
                    ty: token.ty,
                    parent: Some(old(self).parent),
                    next_sibling: None,
                    data: RawNodeData::Leaf { range: token.range },
                },
            ),
            *final(self) == (Frame {
                parent: old(self).parent,
                last_child: Some(NodeId(old(nodes)@.len() as usize)),
            }),
    {
        let id = nodes.push(
            RawNode {
                ty: token.ty,
                parent: Some(self.parent),
                next_sibling: None,
                data: RawNodeData::Leaf { range: token.range },
            },
        );
        self.add_child(nodes, id);
    }

    fn new_composite_node(&mut self, nodes: &mut RawNodes, ty: NodeType) -> (id: NodeId)
        requires
            old(self).parent.0 < old(nodes)@.len(),
            old(nodes)@[old(self).parent.0 as int].data is Composite,
            match old(self).last_child {
                Some(prev) => prev.0 < old(nodes)@.len(),
                None => true,
            },
        ensures
            id.0 == old(nodes)@.len(),
            final(nodes)@.len() == old(nodes)@.len() + 1,
            final(nodes)@ == attached(old(nodes)@, *old(self), final(nodes)@[id.0 as int]),
            final(nodes)@[id.0 as int].ty == ty,
            final(nodes)@[id.0 as int].parent == Some(old(self).parent),
            final(nodes)@[id.0 as int].next_sibling is None,
            final(nodes)@[id.0 as int].data is Composite,
            final(nodes)@[id.0 as int].first_child_spec() is None,
            *final(self) == (Frame { parent: old(self).parent, last_child: Some(id) }),
    {
        let node = RawNode {
            ty,
            parent: Some(self.parent),
            next_sibling: None,
            data: RawNodeData::Composite { first_child: None, cached_range: LazyCell::new() },
        };
        let ghost pushed = node;
        let id = nodes.push(node);
        self.add_child(nodes, id);
        assert(nodes@[id.0 as int] == pushed);
        id
    }
}

impl<'f> RstBuilder<'f> {
    /// The tokens that the tree is built from.
    pub closed spec fn tokens_spec(&self) -> Seq<RawToken> {
        raw_tokens(self.tokens@)
    }

    /// The number of tokens consumed.
    pub closed spec fn pos(&self) -> int {
        self.pos as int
    }

    /// The nodes that are open, the outermost first.
    pub closed spec fn frames(&self) -> Seq<OpenFrame> {
        frames_of(self.nodes@, self.model@, self.stack@)
    }

    /// The number of nodes created so far.
    pub closed spec fn node_count(&self) -> nat {
        self.nodes@.len()
    }

    /// The tree below the root. It is complete once no node is open.
    pub closed spec fn root_tree(&self) -> Tree {
        self.model@.sub[0]
    }

    /// The number of calls of `start` so far.
    pub closed spec fn started(&self) -> nat {
        self.counts@.0
    }

    /// The number of calls of `finish` so far.
    pub closed spec fn finished(&self) -> nat {
        self.counts@.1
    }

    /// The state is consistent, the position is among the tokens, and each
    /// call of `start` was matched by a call of `finish` or left a node
    /// open.
    pub open spec fn wf(&self) -> bool {
        &&& self.inv()
        &&& 0 <= self.pos() <= self.tokens_spec().len()
        &&& self.started() == self.finished() + self.depth()
    }

    /// The links of the arena spell the open nodes and the complete trees
    /// below them, and the leaves of those trees are the tokens consumed.
    pub closed spec fn inv(&self) -> bool {
        &&& state_ok(self.nodes@, self.model@, self.stack@, raw_tokens(self.tokens@), self.pos as int)
        &&& self.counts@.0 == self.counts@.1 + self.stack@.len()
        &&& (self.nodes@.len() == 0 ==> self.counts@.0 == 0 && self.pos == 0)
        &&& (self.nodes@.len() > 0 ==> self.model@.at[0] == 0)
    }

    /// The number of open nodes.
    pub open spec fn depth(&self) -> nat {
        self.frames().len()
    }

    /// The innermost open node.
    pub open spec fn top(&self) -> OpenFrame {
        self.frames().last()
    }

    /// The type of the next token, if any is left.
    pub open spec fn peek_spec(&self) -> Option<NodeType> {
        if 0 <= self.pos() < self.tokens_spec().len() {
            Some(self.tokens_spec()[self.pos()].ty)
        } else {
            None
        }
    }

    /// Whether the next token is whitespace.
    pub open spec fn at_whitespace(&self) -> bool {
        whitespace_end(self.tokens_spec(), self.pos()) != self.pos()
    }

    /// The root is finished: the tree is complete.
    pub open spec fn is_complete(&self) -> bool {
        self.depth() == 0 && self.node_count() > 0
    }

    /// The state that `before` turns into when the trees `more` join the
    /// children of its innermost open node.
    pub open spec fn extends(&self, before: &Self, more: Seq<Tree>) -> bool {
        &&& before.depth() > 0
        &&& self.tokens_spec() == before.tokens_spec()
        &&& self.frames() == before.frames().update(
            before.depth() - 1,
            OpenFrame { ty: before.top().ty, children: before.top().children + more },
        )
    }

    /// The state is that of `before` after a run of calls that left the
    /// open nodes as they were and gave the innermost one more children:
    /// each `start` of the run was matched by a `finish`.
    pub open spec fn balanced_since(&self, before: &Self) -> bool {
        &&& self.tokens_spec() == before.tokens_spec()
        &&& before.pos() <= self.pos()
        &&& self.depth() == before.depth()
        &&& self.depth() > 0
        &&& self.frames().drop_last() == before.frames().drop_last()
        &&& self.top().ty == before.top().ty
        &&& before.top().children.is_prefix_of(self.top().children)
        &&& self.started() - before.started() == self.finished() - before.finished()
    }

    /// The state that a parser finds: the root, of type `file_type`, is
    /// open and holds the whitespace that the tokens begin with.
    pub open spec fn is_opened(&self, file_type: NodeType, tokens: Seq<RawToken>) -> bool {
        &&& self.tokens_spec() == tokens
        &&& self.pos() == whitespace_end(tokens, 0)
        &&& self.frames() == seq![
            OpenFrame { ty: file_type, children: token_leaves(tokens, 0, self.pos()) },
        ]
        &&& self.started() == 1
        &&& self.finished() == 0
        &&& self.node_count() == 1 + self.pos()
    }

    /// The tree that results when the whitespace that comes next is
    /// consumed and the only open node is closed.
    pub open spec fn closing_tree(&self) -> Tree {
        Tree::Composite {
            ty: self.top().ty,
            children: self.top().children + token_leaves(
                self.tokens_spec(),
                self.pos(),
                whitespace_end(self.tokens_spec(), self.pos()),
            ),
        }
    }

    /// Whether no node is open.
    pub fn is_balanced(&self) -> (yes: bool)
        ensures
            yes == (self.depth() == 0),
    {
        self.stack.len() == 0
    }

    /// A state that gave the innermost open node more children, by as many
    /// calls of `start` as of `finish`, is balanced.
    pub proof fn lemma_extends_balanced(&self, before: &Self, more: Seq<Tree>)
        requires
            self.extends(before, more),
            before.pos() <= self.pos(),
            self.started() - before.started() == self.finished() - before.finished(),
        ensures
            self.balanced_since(before),
    {
        let top = before.depth() - 1;
        assert(self.frames().drop_last() =~= before.frames().drop_last());
        assert(self.top().children =~= before.top().children + more);
        assert(before.top().children.is_prefix_of(self.top().children));
    }

    /// Children that join one after the other join together.
    pub proof fn lemma_extends_trans(
        &self,
        mid: &Self,
        before: &Self,
        first: Seq<Tree>,
        second: Seq<Tree>,
    )
        requires
            mid.extends(before, first),
            self.extends(mid, second),
        ensures
            self.extends(before, first + second),
    {
        let top = before.depth() - 1;
        assert(mid.top().children == before.top().children + first);
        assert((before.top().children + first) + second =~= before.top().children + (first
            + second));
        assert(self.frames() =~= before.frames().update(
            top,
            OpenFrame { ty: before.top().ty, children: before.top().children + (first + second) },
        ));
    }

    /// No child more leaves a state as it is.
    pub proof fn lemma_extends_none(&self)
        requires
            self.depth() > 0,
        ensures
            self.extends(self, Seq::empty()),
    {
        assert(self.top().children + Seq::<Tree>::empty() =~= self.top().children);
        assert(self.frames() =~= self.frames().update(
            self.depth() - 1,
            OpenFrame { ty: self.top().ty, children: self.top().children + Seq::<Tree>::empty() },
        ));
    }

    /// A state is balanced since itself.
    pub proof fn lemma_balanced_refl(&self)
        requires
            self.depth() > 0,
        ensures
            self.balanced_since(self),
    {
    }

    /// Balanced runs compose.
    pub proof fn lemma_balanced_trans(&self, mid: &Self, before: &Self)
        requires
            self.balanced_since(mid),
            mid.balanced_since(before),
        ensures
            self.balanced_since(before),
    {
        let a = before.top().children;
        let b = mid.top().children;
        let c = self.top().children;
        assert(a.is_prefix_of(c)) by {
            assert(a =~= b.subrange(0, a.len() as int));
            assert(b =~= c.subrange(0, b.len() as int));
            assert(a =~= c.subrange(0, a.len() as int));
        }
    }

    /// A node that was opened, filled by a balanced run and closed is one
    /// more child of the node that was innermost before.
    pub proof fn lemma_node_balanced(&self, filled: &Self, opened: &Self, before: &Self, ty: NodeType)
        requires
            before.depth() > 0,
            opened.frames() == before.frames().push(OpenFrame { ty, children: Seq::empty() }),
            opened.tokens_spec() == before.tokens_spec(),
            opened.pos() == before.pos(),
            opened.started() == before.started() + 1,
            opened.finished() == before.finished(),
            filled.balanced_since(opened),
            self.tokens_spec() == filled.tokens_spec(),
            self.pos() == filled.pos(),
            self.started() == filled.started(),
            self.finished() == filled.finished() + 1,
            self.frames() == filled.frames().drop_last().update(
                filled.depth() - 2,
                OpenFrame {
                    ty: filled.frames()[filled.depth() - 2].ty,
                    children: filled.frames()[filled.depth() - 2].children.push(
                        Tree::Composite { ty: filled.top().ty, children: filled.top().children },
                    ),
                },
            ),
        ensures
            self.balanced_since(before),
            self.extends(
                before,
                seq![Tree::Composite { ty, children: filled.top().children }],
            ),
    {
        let d = before.depth() as int;
        assert(opened.frames().drop_last() =~= before.frames());
        assert(filled.frames().drop_last() == before.frames());
        assert(filled.top().ty == ty);
        let tree = Tree::Composite { ty, children: filled.top().children };
        assert(before.top().children.push(tree) =~= before.top().children + seq![tree]);
        assert(self.frames() =~= before.frames().update(
            d - 1,
            OpenFrame { ty: before.top().ty, children: before.top().children + seq![tree] },
        ));
        self.lemma_extends_balanced(before, seq![tree]);
    }

    /// Balance: the calls of `start` are those of `finish` and one for each
    /// node that is still open. The two numbers agree exactly when no node
    /// is open.
    pub proof fn lemma_balance(&self)
        requires
            self.wf(),
        ensures
            self.started() == self.finished() + self.depth(),
            self.depth() == 0 <==> self.started() == self.finished(),
            self.node_count() == 0 ==> self.started() == 0,
            0 <= self.pos() <= self.tokens_spec().len(),
    {
    }

    /// A machine at the first of `tokens`, with no node yet.
    pub fn new(tokens: &'f [Token<'f>]) -> (builder: RstBuilder<'f>)
        ensures
            builder.wf(),
            builder.tokens_spec() == raw_tokens(tokens@),
            builder.pos() == 0,
            builder.depth() == 0,
            builder.node_count() == 0,
            builder.started() == 0,
            builder.finished() == 0,
    {
        RstBuilder {
            tokens,
            pos: 0,
            nodes: RawNodes::new(),
            stack: Vec::new(),
            model: Ghost(Model { kids: Seq::empty(), sub: Seq::empty(), at: Seq::empty() }),
            counts: Ghost((0, 0)),
        }
    }

    /// The type of the next token, if any is left.
    pub fn peek(&self) -> (next: Option<NodeType>)
        ensures
            next == self.peek_spec(),
    {
        if self.pos < self.tokens.len() {
            Some(self.tokens[self.pos].ty)
        } else {
            None
        }
    }

    /// Consumes the next token: it becomes the last child of the innermost
    /// open node.
    pub fn bump(&mut self)
        requires
            old(self).wf(),
            old(self).depth() > 0,
            old(self).pos() < old(self).tokens_spec().len(),
        ensures
            final(self).wf(),
            final(self).pos() == old(self).pos() + 1,
            final(self).extends(
                old(self),
                seq![leaf_of(old(self).tokens_spec()[old(self).pos()])],
            ),
            final(self).started() == old(self).started(),
            final(self).finished() == old(self).finished(),
            final(self).node_count() == old(self).node_count() + 1,
    {
        let token = self.tokens[self.pos];
        let top = self.stack.len() - 1;
        let count = self.nodes.len();
        let ghost toks = raw_tokens(self.tokens@);
        let ghost leaf = leaf_of(toks[self.pos as int]);
        let ghost node = RawNode {
            ty: token.ty,
            parent: Some(self.stack@[top as int].parent),
            next_sibling: None,
            data: RawNodeData::Leaf { range: token.range },
        };
        proof {
            assert(frame_ok(self.nodes@, self.model@, self.stack@, toks, self.pos as int, top as int));
            let p = self.stack@[top as int].parent.0 as int;
            assert(links_ok(self.nodes@, self.model@.kids, p));
            if self.model@.kids[p].len() > 0 {
                assert(child_ok(self.nodes@, self.model@.kids, p, self.model@.kids[p].len() - 1));
            }
            lemma_attach(
                self.nodes@,
                self.model@,
                self.stack@,
                toks,
                self.pos as int,
                node,
                leaf,
                self.pos + 1,
            );
        }
        let ghost old_nodes = self.nodes@;
        let ghost old_model = self.model@;
        let ghost old_stack = self.stack@;
        let ghost id = NodeId(old_nodes.len() as usize);
        let ghost p = old_stack[top as int].parent;
        let mut frame = self.stack[top];
        frame.new_leaf_node(&mut self.nodes, token);
        self.stack[top] = frame;
        self.pos = self.pos + 1;
        proof {
            self.model@ = grown(old_model, p, id, leaf, self.pos - 1);
            let nodes2 = self.nodes@;
            let m2 = self.model@;
            let stack2 = self.stack@;
            let pos2 = self.pos as int;
            assert(stack2 =~= with_last_child(old_stack, id));
            // The new leaf is complete.
            assert(!is_open(stack2, id.0 as int)) by {
                assert forall|k: int| 0 <= k < stack2.len() implies (#[trigger] stack2[k]).parent.0
                    != id.0 by {
                    assert(frame_ok(old_nodes, old_model, old_stack, toks, pos2 - 1, k));
                }
            }
            assert(leaves(leaf) =~= toks.subrange(pos2 - 1, pos2));
            assert(m2.kids[id.0 as int] =~= Seq::<NodeId>::empty());
            assert(closed_ok(nodes2, m2, toks, pos2, id.0 as int));
            assert forall|i: int| 0 <= i < nodes2.len() && !is_open(stack2, i) implies #[trigger] closed_ok(
                nodes2,
                m2,
                toks,
                pos2,
                i,
            ) by {
                if i < old_nodes.len() {
                    if is_open(old_stack, i) {
                        let k = choose|k: int|
                            0 <= k < old_stack.len() && (#[trigger] old_stack[k]).parent.0 == i;
                        assert(stack2[k].parent.0 == i);
                    } else {
                        assert(closed_kept(
                            old_nodes,
                            old_model,
                            old_stack,
                            toks,
                            node,
                            leaf,
                            pos2 - 1,
                            pos2,
                            i,
                        ));
                    }
                }
            }
            assert forall|i: int| 0 <= i < nodes2.len() implies #[trigger] links_ok(
                nodes2,
                m2.kids,
                i,
            ) by {
                assert(links_kept(old_nodes, old_model, old_stack, node, leaf, pos2 - 1, i));
            }
            assert forall|k: int| 0 <= k < top implies #[trigger] frame_ok(
                nodes2,
                m2,
                stack2,
                toks,
                pos2,
                k,
            ) && trees_of(m2.sub, frame_kids(m2.kids, stack2, k)) == trees_of(
                old_model.sub,
                frame_kids(old_model.kids, old_stack, k),
            ) by {
                assert(lower_frame_kept(
                    old_nodes,
                    old_model,
                    old_stack,
                    toks,
                    node,
                    leaf,
                    pos2 - 1,
                    pos2,
                    k,
                ));
            }
            // The innermost open node.
            lemma_leaves_of_push(trees_of(old_model.sub, old_model.kids[p.0 as int]), leaf);
            assert(toks.subrange(old_model.at[p.0 as int], pos2 - 1) + leaves(leaf)
                =~= toks.subrange(old_model.at[p.0 as int], pos2));
            assert(frame_ok(nodes2, m2, stack2, toks, pos2, top as int));
            assert(state_ok(nodes2, m2, stack2, toks, pos2));
            // The open nodes as the contract shows them.
            assert(old(self).frames().len() == old_stack.len());
            assert(self.frames() =~= old(self).frames().update(
                top as int,
                OpenFrame {
                    ty: old(self).frames()[top as int].ty,
                    children: old(self).frames()[top as int].children + seq![leaf],
                },
            )) by {
                assert forall|k: int| 0 <= k < stack2.len() implies #[trigger] self.frames()[k]
                    == old(self).frames().update(
                    top as int,
                    OpenFrame {
                        ty: old(self).frames()[top as int].ty,
                        children: old(self).frames()[top as int].children + seq![leaf],
                    },
                )[k] by {
                    if k < top {
                        assert(frame_ok(nodes2, m2, stack2, toks, pos2, k));
                        assert(trees_of(m2.sub, frame_kids(m2.kids, stack2, k)) == trees_of(
                            old_model.sub,
                            frame_kids(old_model.kids, old_stack, k),
                        ));
                    } else {
                        assert(trees_of(old_model.sub, old_model.kids[p.0 as int]).push(leaf)
                            =~= trees_of(old_model.sub, old_model.kids[p.0 as int]) + seq![leaf]);
                    }
                }
            }
        }
    }

    /// Consumes the next token, which is of type `ty`.
    pub fn eat(&mut self, ty: NodeType)
        requires
            old(self).wf(),
            old(self).depth() > 0,
            old(self).peek_spec() matches Some(next) && next.0 == ty.0,
        ensures
            final(self).wf(),
            final(self).pos() == old(self).pos() + 1,
            final(self).extends(
                old(self),
                seq![leaf_of(old(self).tokens_spec()[old(self).pos()])],
            ),
            final(self).started() == old(self).started(),
            final(self).finished() == old(self).finished(),
            final(self).node_count() == old(self).node_count() + 1,
    {
        match self.peek() {
            Some(next) => {
                vstd::pervasive::runtime_assert(next == ty);
                self.bump();
            },
            None => {
                vstd::pervasive::runtime_assert(false);
            },
        }
    }

    /// Consumes the whitespace tokens that come next.
    pub fn skip_ws(&mut self)
        requires
            old(self).wf(),
            old(self).depth() > 0 || !old(self).at_whitespace(),
        ensures
            final(self).wf(),
            final(self).pos() == whitespace_end(old(self).tokens_spec(), old(self).pos()),
            final(self).tokens_spec() == old(self).tokens_spec(),
            final(self).frames().len() == old(self).frames().len(),
            old(self).depth() > 0 ==> final(self).extends(
                old(self),
                token_leaves(old(self).tokens_spec(), old(self).pos(), final(self).pos()),
            ),
            old(self).depth() == 0 ==> final(self).frames() == old(self).frames()
                && final(self).root_tree() == old(self).root_tree(),
            final(self).started() == old(self).started(),
            final(self).finished() == old(self).finished(),
            final(self).node_count() == old(self).node_count() + final(self).pos() - old(
                self,
            ).pos(),
    {
        let ghost toks = self.tokens_spec();
        let ghost start = self.pos();
        proof {
            assert(token_leaves(toks, start, start) =~= Seq::<Tree>::empty());
            if self.depth() > 0 {
                assert(self.frames() =~= self.frames().update(
                    self.depth() - 1,
                    OpenFrame {
                        ty: self.top().ty,
                        children: self.top().children + Seq::<Tree>::empty(),
                    },
                )) by {
                    assert(self.top().children + Seq::<Tree>::empty() =~= self.top().children);
                }
            }
        }
        loop
            invariant
                self.wf(),
                self.tokens_spec() == toks,
                toks == old(self).tokens_spec(),
                start == old(self).pos(),
                start <= self.pos() <= toks.len(),
                whitespace_end(toks, self.pos()) == whitespace_end(toks, start),
                self.frames().len() == old(self).frames().len(),
                old(self).depth() > 0 ==> self.extends(
                    old(self),
                    token_leaves(toks, start, self.pos()),
                ),
                old(self).depth() == 0 ==> self.frames() == old(self).frames() && self.root_tree()
                    == old(self).root_tree() && self.pos() == start,
                old(self).depth() > 0 || !old(self).at_whitespace(),
                self.started() == old(self).started(),
                self.finished() == old(self).finished(),
                self.node_count() == old(self).node_count() + self.pos() - start,
            ensures
                self.pos() == whitespace_end(toks, start),
            decreases toks.len() - self.pos(),
        {
            match self.peek() {
                Some(t) => {
                    if !(t == whitespace()) {
                        break ;
                    }
                    let ghost before = *self;
                    proof {
                        lemma_whitespace_end(toks, self.pos() + 1);
                    }
                    self.bump();
                    proof {
                        let leaf = leaf_of(toks[before.pos()]);
                        assert(token_leaves(toks, start, self.pos()) =~= token_leaves(
                            toks,
                            start,
                            before.pos(),
                        ) + seq![leaf]);
                        let top = old(self).depth() - 1;
                        assert(self.frames() =~= old(self).frames().update(
                            top,
                            OpenFrame {
                                ty: old(self).top().ty,
                                children: old(self).top().children + token_leaves(
                                    toks,
                                    start,
                                    self.pos(),
                                ),
                            },
                        )) by {
                            assert((old(self).top().children + token_leaves(
                                toks,
                                start,
                                before.pos(),
                            )) + seq![leaf] =~= old(self).top().children + token_leaves(
                                toks,
                                start,
                                self.pos(),
                            ));
                        }
                    }
                },
                None => {
                    break ;
                },
            }
        }
    }

    fn new_composite_node(&mut self, parent: Option<NodeId>, ty: NodeType) -> (id: NodeId)
        ensures
            id.0 == old(self).nodes@.len(),
            final(self).nodes@.len() == old(self).nodes@.len() + 1,
            final(self).nodes@ == old(self).nodes@.push(final(self).nodes@[id.0 as int]),
            final(self).nodes@[id.0 as int].ty == ty,
            final(self).nodes@[id.0 as int].parent == parent,
            final(self).nodes@[id.0 as int].next_sibling is None,
            final(self).nodes@[id.0 as int].data is Composite,
            final(self).nodes@[id.0 as int].first_child_spec() is None,
            final(self).tokens == old(self).tokens,
            final(self).pos == old(self).pos,
            final(self).stack == old(self).stack,
            final(self).model == old(self).model,
            final(self).counts == old(self).counts,
    {
        let node = RawNode {
            ty,
            parent,
            next_sibling: None,
            data: RawNodeData::Composite { first_child: None, cached_range: LazyCell::new() },
        };
        let ghost pushed = node;
        let id = self.nodes.push(node);
        assert(self.nodes@[id.0 as int] == pushed);
        id
    }

    /// Opens a node of type `ty`: the last child of the innermost open node,
    /// or the root where no node exists yet.
    pub fn start(&mut self, ty: NodeType)
        requires
            old(self).wf(),
            old(self).depth() > 0 || old(self).node_count() == 0,
        ensures
            final(self).wf(),
            final(self).tokens_spec() == old(self).tokens_spec(),
            final(self).pos() == old(self).pos(),
            final(self).frames() == old(self).frames().push(
                OpenFrame { ty, children: Seq::empty() },
            ),
            final(self).started() == old(self).started() + 1,
            final(self).finished() == old(self).finished(),
            final(self).node_count() == old(self).node_count() + 1,
    {
        let ghost toks = raw_tokens(self.tokens@);
        let ghost pos = self.pos as int;
        let ghost junk = Tree::Composite { ty, children: Seq::empty() };
        let count = self.nodes.len();
        if self.stack.len() == 0 {
            let id = self.new_composite_node(None, ty);
            self.stack.push(Frame { parent: id, last_child: None });
            proof {
                self.model@ = Model {
                    kids: seq![Seq::<NodeId>::empty()],
                    sub: seq![junk],
                    at: seq![pos],
                };
                self.counts@ = (self.counts@.0 + 1, self.counts@.1);
                let nodes2 = self.nodes@;
                let m2 = self.model@;
                let stack2 = self.stack@;
                lemma_leaves_of_empty();
                assert(trees_of(m2.sub, m2.kids[0]) =~= Seq::<Tree>::empty());
                assert(toks.subrange(pos, pos) =~= Seq::<RawToken>::empty());
                assert(frame_ok(nodes2, m2, stack2, toks, pos, 0));
                assert(links_ok(nodes2, m2.kids, 0));
                assert(stack2[0].parent.0 == 0);
                assert(is_open(stack2, 0));
                assert(state_ok(nodes2, m2, stack2, toks, pos));
                assert(self.frames() =~= old(self).frames().push(
                    OpenFrame { ty, children: Seq::empty() },
                ));
            }
            return ;
        }
        let top = self.stack.len() - 1;
        let ghost old_nodes = self.nodes@;
        let ghost old_model = self.model@;
        let ghost old_stack = self.stack@;
        let ghost p = old_stack[top as int].parent;
        proof {
            assert(frame_ok(old_nodes, old_model, old_stack, toks, pos, top as int));
            assert(links_ok(old_nodes, old_model.kids, p.0 as int));
            if old_model.kids[p.0 as int].len() > 0 {
                assert(child_ok(
                    old_nodes,
                    old_model.kids,
                    p.0 as int,
                    old_model.kids[p.0 as int].len() - 1,
                ));
            }
        }
        let mut frame = self.stack[top];
        let id = frame.new_composite_node(&mut self.nodes, ty);
        self.stack[top] = frame;
        self.stack.push(Frame { parent: id, last_child: None });
        proof {
            let node = self.nodes@[id.0 as int];
            lemma_attach(old_nodes, old_model, old_stack, toks, pos, node, junk, pos);
            self.model@ = grown(old_model, p, id, junk, pos);
            self.counts@ = (self.counts@.0 + 1, self.counts@.1);
            let nodes2 = self.nodes@;
            let m2 = self.model@;
            let stack2 = with_last_child(old_stack, id);
            let stack3 = self.stack@;
            assert forall|i: int| 0 <= i < nodes2.len() implies #[trigger] links_ok(
                nodes2,
                m2.kids,
                i,
            ) by {
                assert(links_kept(old_nodes, old_model, old_stack, node, junk, pos, i));
            }
            assert forall|k: int| 0 <= k < top implies #[trigger] frame_ok(
                nodes2,
                m2,
                stack2,
                toks,
                pos,
                k,
            ) && trees_of(m2.sub, frame_kids(m2.kids, stack2, k)) == trees_of(
                old_model.sub,
                frame_kids(old_model.kids, old_stack, k),
            ) by {
                assert(lower_frame_kept(
                    old_nodes,
                    old_model,
                    old_stack,
                    toks,
                    node,
                    junk,
                    pos,
                    pos,
                    k,
                ));
            }
            assert(stack3 =~= stack2.push(Frame { parent: id, last_child: None }));
            let n = old_nodes.len() as int;
            lemma_leaves_of_empty();
            assert(m2.kids[n] =~= Seq::<NodeId>::empty());
            assert(trees_of(m2.sub, m2.kids[n]) =~= Seq::<Tree>::empty());
            assert(toks.subrange(pos, pos) =~= Seq::<RawToken>::empty());
            assert(frame_ok(nodes2, m2, stack3, toks, pos, top + 1));
            assert(m2.kids[p.0 as int].drop_last() =~= old_model.kids[p.0 as int]);
            assert forall|mm: int| 0 <= mm < old_model.kids[p.0 as int].len() implies (
            #[trigger] old_model.kids[p.0 as int][mm]).0 < n by {
                assert(child_ok(old_nodes, old_model.kids, p.0 as int, mm));
            }
            assert(trees_of(m2.sub, old_model.kids[p.0 as int]) =~= trees_of(
                old_model.sub,
                old_model.kids[p.0 as int],
            ));
            assert(frame_ok(nodes2, m2, stack3, toks, pos, top as int));
            assert forall|k: int| 0 <= k < stack3.len() implies #[trigger] frame_ok(
                nodes2,
                m2,
                stack3,
                toks,
                pos,
                k,
            ) by {
                if k < top {
                    assert(frame_ok(nodes2, m2, stack2, toks, pos, k));
                    assert(stack3[k] == stack2[k]);
                    assert(stack3[k + 1] == stack2[k + 1]);
                }
            }
            assert forall|i: int| 0 <= i < nodes2.len() && !is_open(stack3, i) implies #[trigger] closed_ok(
                nodes2,
                m2,
                toks,
                pos,
                i,
            ) by {
                if i == n {
                    assert(stack3[top + 1].parent.0 == n);
                } else if is_open(old_stack, i) {
                    let k = choose|k: int|
                        0 <= k < old_stack.len() && (#[trigger] old_stack[k]).parent.0 == i;
                    assert(stack3[k].parent.0 == i);
                } else {
                    assert(closed_kept(
                        old_nodes,
                        old_model,
                        old_stack,
                        toks,
                        node,
                        junk,
                        pos,
                        pos,
                        i,
                    ));
                }
            }
            assert(state_ok(nodes2, m2, stack3, toks, pos));
            assert(self.frames() =~= old(self).frames().push(
                OpenFrame { ty, children: Seq::empty() },
            )) by {
                assert forall|k: int| 0 <= k < stack3.len() implies #[trigger] self.frames()[k]
                    == old(self).frames().push(OpenFrame { ty, children: Seq::empty() })[k] by {
                    if k < top {
                        assert(frame_ok(nodes2, m2, stack2, toks, pos, k));
                        assert(stack3[k] == stack2[k]);
                        assert(stack3[k + 1] == stack2[k + 1]);
                        assert(frame_kids(m2.kids, stack3, k) == frame_kids(m2.kids, stack2, k));
                    } else if k == top {
                        assert(frame_kids(m2.kids, stack3, k) == old_model.kids[p.0 as int]);
                    }
                }
            }
        }
    }

    /// Closes the innermost open node, which is of type `ty`: it becomes a
    /// complete child of the node that was opened before it, or the root
    /// of the complete tree. Its children are fixed from here on, and so
    /// is its span: the node gets the cache that admits that span only.
    pub fn finish(&mut self, ty: NodeType)
        requires
            old(self).wf(),
            old(self).depth() > 0,
            old(self).top().ty.0 == ty.0,
        ensures
            final(self).wf(),
            final(self).tokens_spec() == old(self).tokens_spec(),
            final(self).pos() == old(self).pos(),
            final(self).started() == old(self).started(),
            final(self).finished() == old(self).finished() + 1,
            final(self).node_count() == old(self).node_count(),
            final(self).depth() == old(self).depth() - 1,
            old(self).depth() >= 2 ==> final(self).frames() == old(self).frames().drop_last().update(
                old(self).depth() - 2,
                OpenFrame {
                    ty: old(self).frames()[old(self).depth() - 2].ty,
                    children: old(self).frames()[old(self).depth() - 2].children.push(
                        Tree::Composite {
                            ty: old(self).top().ty,
                            children: old(self).top().children,
                        },
                    ),
                },
            ),
            old(self).depth() == 1 ==> final(self).root_tree() == (Tree::Composite {
                ty: old(self).top().ty,
                children: old(self).top().children,
            }),
    {
        let ghost toks = raw_tokens(self.tokens@);
        let ghost pos = self.pos as int;
        let ghost old_nodes = self.nodes@;
        let ghost m = self.model@;
        let ghost old_stack = self.stack@;
        let ghost top = old_stack.len() - 1;
        let ghost p = old_stack[top].parent.0 as int;
        proof {
            assert(frame_ok(old_nodes, m, old_stack, toks, pos, top));
        }
        let ghost t = Tree::Composite { ty: old_nodes[p].ty, children: trees_of(m.sub, m.kids[p]) };
        let frame = self.stack.pop().unwrap();
        let node_ty = self.nodes.get(frame.parent).ty;
        vstd::pervasive::runtime_assert(node_ty == ty);
        let cell = LazyCell::restricted(Ghost(|r: Range| spannable(t) && r == span(t)));
        self.nodes.set_cache(frame.parent, cell);
        proof {
            self.model@ = Model { sub: m.sub.update(p, t), ..m };
            self.counts@ = (self.counts@.0, self.counts@.1 + 1);
            let nodes2 = self.nodes@;
            let m2 = self.model@;
            let stack2 = self.stack@;
            assert(stack2 =~= old_stack.drop_last());
            assert(links_ok(old_nodes, m.kids, p));
            // A child of the node that was closed is not that node.
            let pk = m.kids[p];
            assert forall|mm: int| 0 <= mm < pk.len() implies (#[trigger] pk[mm]).0 != p
                && pk[mm].0 < old_nodes.len() by {
                assert(child_ok(old_nodes, m.kids, p, mm));
            }
            assert(trees_of(m2.sub, pk) =~= trees_of(m.sub, pk));
            // The links.
            assert forall|i: int| 0 <= i < nodes2.len() implies #[trigger] links_ok(
                nodes2,
                m2.kids,
                i,
            ) by {
                assert(links_ok(old_nodes, m.kids, i));
                assert forall|mm: int| 0 <= mm < m.kids[i].len() implies #[trigger] child_ok(
                    nodes2,
                    m2.kids,
                    i,
                    mm,
                ) by {
                    assert(child_ok(old_nodes, m.kids, i, mm));
                }
            }
            // The node that was closed is complete.
            assert(closed_ok(nodes2, m2, toks, pos, p));
            // The nodes that were complete before.
            assert forall|i: int| 0 <= i < nodes2.len() && !is_open(stack2, i) implies #[trigger] closed_ok(
                nodes2,
                m2,
                toks,
                pos,
                i,
            ) by {
                if i != p {
                    if is_open(old_stack, i) {
                        let k = choose|k: int|
                            0 <= k < old_stack.len() && (#[trigger] old_stack[k]).parent.0 == i;
                        assert(stack2[k].parent.0 == i);
                    }
                    assert(closed_ok(old_nodes, m, toks, pos, i));
                    assert(links_ok(old_nodes, m.kids, i));
                    if top > 0 {
                        assert(stack2[top - 1].parent.0 == old_stack[top - 1].parent.0);
                    }
                    let ik = m.kids[i];
                    assert forall|mm: int| 0 <= mm < ik.len() implies m2.sub[(#[trigger] ik[mm]).0 as int]
                        == m.sub[ik[mm].0 as int] by {
                        lemma_top_not_a_closed_kid(old_nodes, m, old_stack, toks, pos, i, mm);
                    }
                    lemma_closed_preserved(old_nodes, m, toks, pos, nodes2, m2, pos, i);
                }
            }
            // The open nodes.
            if top > 0 {
                let q = old_stack[top - 1].parent.0 as int;
                assert(frame_ok(old_nodes, m, old_stack, toks, pos, top - 1));
                assert(links_ok(old_nodes, m.kids, q));
                let qk = m.kids[q];
                assert(child_ok(old_nodes, m.kids, q, qk.len() - 1));
                let front = qk.drop_last();
                assert forall|mm: int| 0 <= mm < front.len() implies (#[trigger] front[mm]).0
                    != p && front[mm].0 < old_nodes.len() by {
                    assert(front[mm] == qk[mm]);
                    assert(child_ok(old_nodes, m.kids, q, mm));
                }
                assert(trees_of(m2.sub, front) =~= trees_of(m.sub, front));
                assert(trees_of(m2.sub, qk) =~= trees_of(m2.sub, front).push(t));
                lemma_leaves_of_push(trees_of(m.sub, qk.drop_last()), t);
                assert(toks.subrange(m.at[q], m.at[p]) + toks.subrange(m.at[p], pos)
                    =~= toks.subrange(m.at[q], pos));
                assert(frame_ok(nodes2, m2, stack2, toks, pos, top - 1));
            }
            assert forall|k: int| 0 <= k < stack2.len() implies #[trigger] frame_ok(
                nodes2,
                m2,
                stack2,
                toks,
                pos,
                k,
            ) && (k < top - 1 ==> trees_of(m2.sub, frame_kids(m2.kids, stack2, k)) == trees_of(
                m.sub,
                frame_kids(m.kids, old_stack, k),
            )) by {
                if k < top - 1 {
                    assert(frame_ok(old_nodes, m, old_stack, toks, pos, k));
                    lemma_parents_increase(old_nodes, m, old_stack, toks, pos, k, top - 1);
                    lemma_parents_increase(old_nodes, m, old_stack, toks, pos, k, top);
                    let q = old_stack[k].parent.0 as int;
                    assert(stack2[k] == old_stack[k]);
                    assert(stack2[k + 1] == old_stack[k + 1]);
                    assert(frame_kids(m2.kids, stack2, k) == frame_kids(m.kids, old_stack, k));
                    let fk = frame_kids(m.kids, old_stack, k);
                    assert forall|mm: int| 0 <= mm < fk.len() implies (#[trigger] fk[mm]).0 != p
                        && fk[mm].0 < old_nodes.len() by {
                        assert(fk[mm] == m.kids[q][mm]);
                        lemma_top_not_a_closed_kid(old_nodes, m, old_stack, toks, pos, q, mm);
                    }
                    assert(trees_of(m2.sub, fk) =~= trees_of(m.sub, fk));
                }
            }
            if top == 0 {
                assert(frame_ok(old_nodes, m, old_stack, toks, pos, 0));
            }
            assert(state_ok(nodes2, m2, stack2, toks, pos));
            assert(old(self).frames()[top].ty == old_nodes[p].ty);
            assert(old(self).frames()[top].children == trees_of(m.sub, m.kids[p]));
            if top > 0 {
                let q = old_stack[top - 1].parent.0 as int;
                let expected = old(self).frames().drop_last().update(
                    top - 1,
                    OpenFrame {
                        ty: old(self).frames()[top - 1].ty,
                        children: old(self).frames()[top - 1].children.push(t),
                    },
                );
                assert(self.frames() =~= expected) by {
                    assert forall|k: int| 0 <= k < stack2.len() implies #[trigger] self.frames()[k]
                        == expected[k] by {
                        assert(frame_ok(nodes2, m2, stack2, toks, pos, k));
                        lemma_parents_increase(old_nodes, m, old_stack, toks, pos, k, top);
                    }
                }
            }
        }
    }

    /// A machine over `tokens` in the state that a parser finds: the root,
    /// of type `file_type`, is open and the whitespace that the tokens
    /// begin with is consumed.
    pub fn open_file(tokens: &'f [Token<'f>], file_type: NodeType) -> (builder: RstBuilder<'f>)
        ensures
            builder.wf(),
            builder.is_opened(file_type, raw_tokens(tokens@)),
    {
        let mut builder = RstBuilder::new(tokens);
        proof {
            builder.lemma_balance();
        }
        builder.start(file_type);
        let ghost opened = builder;
        builder.skip_ws();
        proof {
            assert(Seq::<Tree>::empty() + token_leaves(raw_tokens(tokens@), 0, builder.pos())
                =~= token_leaves(raw_tokens(tokens@), 0, builder.pos()));
            assert(builder.frames() =~= seq![
                OpenFrame {
                    ty: file_type,
                    children: token_leaves(raw_tokens(tokens@), 0, builder.pos()),
                },
            ]);
        }
        builder
    }

    /// Consumes the whitespace that comes next, closes the root, of type
    /// `file_type`, and hands out the arena of the tree with what is known
    /// of its nodes.
    pub fn close_file(self, file_type: NodeType) -> (parts: (RawNodes, Ghost<Model>))
        requires
            self.wf(),
            self.depth() == 1,
            self.top().ty.0 == file_type.0,
        ensures
            ({
                let nodes = parts.0@;
                let model = parts.1@;
                let tokens = self.tokens_spec();
                &&& nodes.len() > 0
                &&& model.kids.len() == nodes.len()
                &&& model.sub.len() == nodes.len()
                &&& model.at.len() == nodes.len()
                &&& model.sub[0] == self.closing_tree()
                &&& model.at[0] == 0
                &&& !(nodes[0].data is Leaf)
                &&& forall|i: int| 0 <= i < nodes.len() ==> #[trigger] links_ok(nodes, model.kids, i)
                &&& forall|i: int|
                    0 <= i < nodes.len() ==> #[trigger] closed_ok(
                        nodes,
                        model,
                        tokens,
                        tokens.len() as int,
                        i,
                    )
            }),
    {
        let mut builder = self;
        proof {
            assert(self.frames() =~= seq![self.top()]);
        }
        builder.skip_ws();
        builder.finish(file_type);
        vstd::pervasive::runtime_assert(builder.is_balanced());
        let ghost done = builder;
        let parts = builder.into_parts();
        proof {
            done.lemma_balance();
            assert forall|i: int| 0 <= i < parts.0@.len() implies #[trigger] closed_ok(
                parts.0@,
                parts.1@,
                self.tokens_spec(),
                self.tokens_spec().len() as int,
                i,
            ) by {
                assert(closed_ok(parts.0@, parts.1@, done.tokens_spec(), done.pos(), i));
                lemma_closed_later(
                    parts.0@,
                    parts.1@,
                    done.tokens_spec(),
                    done.pos(),
                    done.tokens_spec().len() as int,
                    i,
                );
            }
        }
        parts
    }

    /// The arena of the complete tree, and what is known of its nodes.
    pub fn into_parts(self) -> (parts: (RawNodes, Ghost<Model>))
        requires
            self.wf(),
            self.is_complete(),
        ensures
            ({
                let nodes = parts.0@;
                let model = parts.1@;
                &&& nodes.len() == self.node_count()
                &&& model.kids.len() == nodes.len()
                &&& model.sub.len() == nodes.len()
                &&& model.at.len() == nodes.len()
                &&& model.sub[0] == self.root_tree()
                &&& model.at[0] == 0
                &&& !(nodes[0].data is Leaf)
                &&& forall|i: int| 0 <= i < nodes.len() ==> #[trigger] links_ok(nodes, model.kids, i)
                &&& forall|i: int|
                    0 <= i < nodes.len() ==> #[trigger] closed_ok(
                        nodes,
                        model,
                        self.tokens_spec(),
                        self.pos(),
                        i,
                    )
            }),
    {
        proof {
            assert forall|i: int| 0 <= i < self.nodes@.len() implies !is_open(self.stack@, i) by {}
        }
        (self.nodes, self.model)
    }
}

} // verus!
