//! The mathematical model of a syntax tree.

use crate::node_type::NodeType;
use crate::range::{is_boundary, joined, lemma_tiles_join, text_of, tiles, Range};
use crate::token::{ranges_of, RawToken};
use vstd::prelude::*;

verus! {

/// A syntax tree: a token, or a typed node over a sequence of trees.
pub enum Tree {
    Leaf { ty: NodeType, range: Range },
    Composite { ty: NodeType, children: Seq<Tree> },
}

impl Tree {
    /// The type of the root of the tree.
    pub open spec fn ty(self) -> NodeType {
        match self {
            Tree::Leaf { ty, .. } => ty,
            Tree::Composite { ty, .. } => ty,
        }
    }

    /// The trees below the root, in the order of the text.
    pub open spec fn children(self) -> Seq<Tree> {
        match self {
            Tree::Leaf { .. } => Seq::empty(),
            Tree::Composite { children, .. } => children,
        }
    }

    /// Whether the root is tagged as whitespace.
    pub open spec fn is_whitespace(self) -> bool {
        self.ty().0 == 1
    }
}

/// The test that keeps the trees that are not whitespace.
pub open spec fn not_whitespace() -> spec_fn(Tree) -> bool {
    |t: Tree| !t.is_whitespace()
}

/// The tokens at the leaves of the tree, in the order of the text.
pub open spec fn leaves(t: Tree) -> Seq<RawToken>
    decreases t, 0nat,
{
    match t {
        Tree::Leaf { ty, range } => seq![RawToken { ty, range }],
        Tree::Composite { children, .. } => leaves_of(children),
    }
}

/// The tokens at the leaves of the trees, in the order of the text.
pub open spec fn leaves_of(ts: Seq<Tree>) -> Seq<RawToken>
    decreases ts, 1nat,
{
    if ts.len() == 0 {
        Seq::empty()
    } else {
        leaves_of(ts.drop_last()) + leaves(ts.last())
    }
}

/// Whether the tree has a span: every composite node in it has a child.
pub open spec fn spannable(t: Tree) -> bool
    decreases t, 0nat,
{
    match t {
        Tree::Leaf { .. } => true,
        Tree::Composite { children, .. } => children.len() > 0 && all_spannable(children),
    }
}

/// Whether each of the trees has a span.
pub open spec fn all_spannable(ts: Seq<Tree>) -> bool
    decreases ts, 1nat,
{
    ts.len() == 0 || (all_spannable(ts.drop_last()) && spannable(ts.last()))
}

/// The span of the tree: from the start of its first token to the end of
/// its last.
pub open spec fn span(t: Tree) -> Range {
    Range::spec_from_to(leaves(t).first().range.spec_lo(), leaves(t).last().range.spec_hi())
}

/// The leaves of the tree are the tokens from number `at` on.
pub open spec fn on_tokens(t: Tree, tokens: Seq<RawToken>, at: int) -> bool {
    &&& 0 <= at
    &&& at + leaves(t).len() <= tokens.len()
    &&& leaves(t) == tokens.subrange(at, at + leaves(t).len())
}

/// The leaves of the trees are the tokens from number `at` on.
pub open spec fn forest_on_tokens(ts: Seq<Tree>, tokens: Seq<RawToken>, at: int) -> bool {
    &&& 0 <= at
    &&& at + leaves_of(ts).len() <= tokens.len()
    &&& leaves_of(ts) == tokens.subrange(at, at + leaves_of(ts).len())
}

/// The number of leaves in the first `m` of the trees.
pub open spec fn leaves_before(ts: Seq<Tree>, m: int) -> int {
    leaves_of(ts.take(m)).len() as int
}

/// Each token ends where the next one begins.
pub open spec fn consecutive(tokens: Seq<RawToken>) -> bool {
    forall|k: int|
        0 <= k < tokens.len() - 1 ==> (#[trigger] tokens[k]).range.spec_hi() == tokens[k
            + 1].range.spec_lo()
}

/// The leaves of a forest with one more tree.
pub proof fn lemma_leaves_of_push(ts: Seq<Tree>, t: Tree)
    ensures
        leaves_of(ts.push(t)) == leaves_of(ts) + leaves(t),
{
    assert(ts.push(t).drop_last() =~= ts);
}

/// The leaves of no tree at all.
pub proof fn lemma_leaves_of_empty()
    ensures
        leaves_of(Seq::<Tree>::empty()) == Seq::<RawToken>::empty(),
{
}

/// The leaves of the first `m + 1` trees are those of the first `m` and
/// those of tree `m`.
pub proof fn lemma_leaves_before_step(ts: Seq<Tree>, m: int)
    requires
        0 <= m < ts.len(),
    ensures
        leaves_of(ts.take(m + 1)) == leaves_of(ts.take(m)) + leaves(ts[m]),
        leaves_before(ts, m + 1) == leaves_before(ts, m) + leaves(ts[m]).len(),
{
    assert(ts.take(m + 1) =~= ts.take(m).push(ts[m]));
    lemma_leaves_of_push(ts.take(m), ts[m]);
}

/// The leaves of the first trees are a prefix of the leaves of all.
pub proof fn lemma_leaves_before_prefix(ts: Seq<Tree>, m: int)
    requires
        0 <= m <= ts.len(),
    ensures
        leaves_before(ts, m) <= leaves_of(ts).len(),
        leaves_of(ts.take(m)) == leaves_of(ts).take(leaves_before(ts, m)),
    decreases ts.len() - m,
{
    if m == ts.len() {
        assert(ts.take(m) =~= ts);
        assert(leaves_of(ts).take(leaves_of(ts).len() as int) =~= leaves_of(ts));
    } else {
        lemma_leaves_before_step(ts, m);
        lemma_leaves_before_prefix(ts, m + 1);
        let longer = leaves_of(ts.take(m + 1));
        assert(leaves_of(ts.take(m)) =~= longer.take(leaves_before(ts, m)));
        assert(longer.take(leaves_before(ts, m)) =~= leaves_of(ts).take(leaves_before(ts, m)));
    }
}

/// A tree of a forest that lies on the tokens lies on them too, after the
/// leaves of the trees before it.
pub proof fn lemma_child_on_tokens(ts: Seq<Tree>, tokens: Seq<RawToken>, at: int, m: int)
    requires
        forest_on_tokens(ts, tokens, at),
        0 <= m < ts.len(),
    ensures
        on_tokens(ts[m], tokens, at + leaves_before(ts, m)),
        leaves_before(ts, m + 1) == leaves_before(ts, m) + leaves(ts[m]).len(),
        leaves_before(ts, m + 1) <= leaves_of(ts).len(),
{
    lemma_leaves_before_step(ts, m);
    lemma_leaves_before_prefix(ts, m);
    lemma_leaves_before_prefix(ts, m + 1);
    let all = leaves_of(ts);
    let a = leaves_before(ts, m);
    let b = leaves_before(ts, m + 1);
    assert(leaves(ts[m]) =~= all.take(b).skip(a));
    assert(all.take(b).skip(a) =~= tokens.subrange(at + a, at + b));
}

/// Each tree of a forest in which all have a span has one.
pub proof fn lemma_all_spannable(ts: Seq<Tree>, m: int)
    requires
        all_spannable(ts),
        0 <= m < ts.len(),
    ensures
        spannable(ts[m]),
    decreases ts.len(),
{
    if m < ts.len() - 1 {
        lemma_all_spannable(ts.drop_last(), m);
    }
}

/// A forest has spans throughout if each of its trees has one.
pub proof fn lemma_all_spannable_intro(ts: Seq<Tree>)
    requires
        forall|m: int| 0 <= m < ts.len() ==> spannable(#[trigger] ts[m]),
    ensures
        all_spannable(ts),
    decreases ts.len(),
{
    if ts.len() > 0 {
        let front = ts.drop_last();
        assert forall|m: int| 0 <= m < front.len() implies spannable(#[trigger] front[m]) by {
            assert(front[m] == ts[m]);
        }
        lemma_all_spannable_intro(front);
    }
}

/// A tree that has a span has a leaf.
pub proof fn lemma_spannable_has_leaf(t: Tree)
    requires
        spannable(t),
    ensures
        leaves(t).len() > 0,
    decreases t,
{
    match t {
        Tree::Leaf { .. } => {},
        Tree::Composite { children, .. } => {
            lemma_spannable_has_leaf(children.last());
        },
    }
}

/// Tokens that tile a text follow one another, and each begins and ends
/// where a character does.
pub proof fn lemma_tiling_tokens(text: Seq<char>, tokens: Seq<RawToken>, start: int, end: int)
    requires
        tiles(text, ranges_of(tokens), start, end),
    ensures
        consecutive(tokens),
        forall|k: int|
            0 <= k < tokens.len() ==> (#[trigger] tokens[k]).range.wf() && is_boundary(
                text,
                tokens[k].range.spec_lo() as int,
            ) && is_boundary(text, tokens[k].range.spec_hi() as int),
{
    let spans = ranges_of(tokens);
    assert forall|k: int| 0 <= k < tokens.len() - 1 implies (#[trigger] tokens[k]).range.spec_hi()
        == tokens[k + 1].range.spec_lo() by {
        assert(spans[k] == tokens[k].range);
        assert(spans[k + 1] == tokens[k + 1].range);
    }
    assert forall|k: int| 0 <= k < tokens.len() implies (#[trigger] tokens[k]).range.wf()
        && is_boundary(text, tokens[k].range.spec_lo() as int) && is_boundary(
        text,
        tokens[k].range.spec_hi() as int,
    ) by {
        assert(spans[k] == tokens[k].range);
    }
}

/// Contiguity: in a tree that lies on consecutive tokens, a child begins
/// exactly where the child before it ends.
pub proof fn lemma_contiguity(t: Tree, tokens: Seq<RawToken>, at: int, m: int)
    requires
        consecutive(tokens),
        on_tokens(t, tokens, at),
        t is Composite,
        0 <= m < t.children().len() - 1,
        spannable(t.children()[m]),
        spannable(t.children()[m + 1]),
    ensures
        span(t.children()[m]).spec_hi() == span(t.children()[m + 1]).spec_lo(),
{
    let ts = t.children();
    lemma_child_on_tokens(ts, tokens, at, m);
    lemma_child_on_tokens(ts, tokens, at, m + 1);
    lemma_spannable_has_leaf(ts[m]);
    lemma_spannable_has_leaf(ts[m + 1]);
    let a = at + leaves_before(ts, m);
    let b = at + leaves_before(ts, m + 1);
    assert(leaves(ts[m]).last() == tokens[b - 1]);
    assert(leaves(ts[m + 1]).first() == tokens[b]);
    Range::lemma_from_to(
        leaves(ts[m]).first().range.spec_lo(),
        leaves(ts[m]).last().range.spec_hi(),
    );
    Range::lemma_from_to(
        leaves(ts[m + 1]).first().range.spec_lo(),
        leaves(ts[m + 1]).last().range.spec_hi(),
    );
}

/// The span of a leaf is the span of its token.
pub proof fn lemma_span_of_leaf(ty: NodeType, range: Range)
    ensures
        span(Tree::Leaf { ty, range }) == range,
        spannable(Tree::Leaf { ty, range }),
{
    let t = Tree::Leaf { ty, range };
    assert(leaves(t).first().range == range);
    assert(leaves(t).last().range == range);
    Range::lemma_from_to(range.spec_lo(), range.spec_hi());
    Range::spec_from_to(range.spec_lo(), range.spec_hi()).lemma_ext(range);
}

/// Whitespace at the front of a sequence does not show in what is left
/// when whitespace is filtered out.
pub proof fn lemma_filter_leading_whitespace(ts: Seq<Tree>, j: int)
    requires
        0 <= j <= ts.len(),
        forall|m: int| 0 <= m < j ==> (#[trigger] ts[m]).is_whitespace(),
    ensures
        ts.filter(not_whitespace()) == ts.skip(j).filter(not_whitespace()),
    decreases j,
{
    if j == 0 {
        assert(ts.skip(0) =~= ts);
    } else {
        let head = seq![ts[0]];
        let tail = ts.skip(1);
        assert(ts =~= head + tail);
        Seq::filter_distributes_over_add(head, tail, not_whitespace());
        reveal_with_fuel(Seq::filter, 2);
        assert(head.drop_last() =~= Seq::<Tree>::empty());
        assert(head.filter(not_whitespace()) =~= Seq::<Tree>::empty());
        assert forall|m: int| 0 <= m < j - 1 implies (#[trigger] tail[m]).is_whitespace() by {
            assert(tail[m] == ts[m + 1]);
        }
        lemma_filter_leading_whitespace(tail, j - 1);
        assert(tail.skip(j - 1) =~= ts.skip(j));
        assert(Seq::<Tree>::empty() + tail.filter(not_whitespace()) =~= tail.filter(
            not_whitespace(),
        ));
    }
}

/// The index of the first tree at or after `from` that is not whitespace,
/// or the number of the trees.
pub open spec fn next_kept(ts: Seq<Tree>, from: int) -> int
    decreases ts.len() - from,
{
    if 0 <= from < ts.len() && ts[from].is_whitespace() {
        next_kept(ts, from + 1)
    } else {
        from
    }
}

/// Between a position and the next tree that is kept there is whitespace
/// only.
pub proof fn lemma_next_kept(ts: Seq<Tree>, from: int)
    requires
        0 <= from <= ts.len(),
    ensures
        from <= next_kept(ts, from) <= ts.len(),
        forall|m: int| from <= m < next_kept(ts, from) ==> (#[trigger] ts[m]).is_whitespace(),
        next_kept(ts, from) < ts.len() ==> !ts[next_kept(ts, from)].is_whitespace(),
    decreases ts.len() - from,
{
    if from < ts.len() && ts[from].is_whitespace() {
        lemma_next_kept(ts, from + 1);
    }
}

/// The position of the next tree that is kept is the one before which
/// there is whitespace only and which is not whitespace itself.
pub proof fn lemma_next_kept_is(ts: Seq<Tree>, from: int, j: int)
    requires
        0 <= from <= j <= ts.len(),
        forall|m: int| from <= m < j ==> (#[trigger] ts[m]).is_whitespace(),
        j < ts.len() ==> !ts[j].is_whitespace(),
    ensures
        next_kept(ts, from) == j,
    decreases j - from,
{
    if from < j {
        assert(ts[from].is_whitespace());
        lemma_next_kept_is(ts, from + 1, j);
    }
}

/// Nothing is left of no trees.
pub proof fn lemma_filter_empty()
    ensures
        Seq::<Tree>::empty().filter(not_whitespace()) == Seq::<Tree>::empty(),
{
    reveal_with_fuel(Seq::filter, 1);
}

/// A tree at the front that is not whitespace is the first that is left
/// when whitespace is filtered out.
pub proof fn lemma_filter_first_kept(ts: Seq<Tree>)
    requires
        ts.len() > 0,
        !ts[0].is_whitespace(),
    ensures
        ts.filter(not_whitespace()) == seq![ts[0]] + ts.skip(1).filter(not_whitespace()),
{
    let head = seq![ts[0]];
    let tail = ts.skip(1);
    assert(ts =~= head + tail);
    Seq::filter_distributes_over_add(head, tail, not_whitespace());
    reveal_with_fuel(Seq::filter, 2);
    assert(head.drop_last() =~= Seq::<Tree>::empty());
    assert(head.filter(not_whitespace()) =~= head);
}

/// The span of a composite node runs from the start of its first child to
/// the end of its last.
pub proof fn lemma_span_of_composite(t: Tree)
    requires
        t is Composite,
        spannable(t),
    ensures
        span(t).spec_lo() == span(t.children().first()).spec_lo(),
        span(t).spec_hi() == span(t.children().last()).spec_hi(),
        span(t).wf() <==> span(t).spec_lo() < span(t).spec_hi(),
{
    let ts = t.children();
    lemma_all_spannable(ts, 0);
    lemma_all_spannable(ts, ts.len() - 1);
    lemma_spannable_has_leaf(ts.first());
    lemma_spannable_has_leaf(ts.last());
    lemma_leaves_before_step(ts, 0);
    lemma_leaves_before_prefix(ts, 1);
    lemma_leaves_of_empty();
    assert(ts.take(0) =~= Seq::<Tree>::empty());
    assert(leaves_of(ts.take(1)) =~= leaves(ts[0]));
    assert(leaves_of(ts).first() == leaves(ts[0]).first());
    Range::lemma_from_to(leaves(t).first().range.spec_lo(), leaves(t).last().range.spec_hi());
    Range::lemma_from_to(
        leaves(ts.first()).first().range.spec_lo(),
        leaves(ts.first()).last().range.spec_hi(),
    );
    Range::lemma_from_to(
        leaves(ts.last()).first().range.spec_lo(),
        leaves(ts.last()).last().range.spec_hi(),
    );
}

/// The span of a tree on tiling tokens is a span of the text: not empty,
/// and between character boundaries.
pub proof fn lemma_span_in_text(text: Seq<char>, tokens: Seq<RawToken>, start: int, end: int, t: Tree, at: int)
    requires
        tiles(text, ranges_of(tokens), start, end),
        on_tokens(t, tokens, at),
        spannable(t),
    ensures
        span(t).wf(),
        is_boundary(text, span(t).spec_lo() as int),
        is_boundary(text, span(t).spec_hi() as int),
        span(t).spec_lo() == tokens[at].range.spec_lo(),
        span(t).spec_hi() == tokens[at + leaves(t).len() - 1].range.spec_hi(),
{
    lemma_tiling_tokens(text, tokens, start, end);
    lemma_spannable_has_leaf(t);
    let n = leaves(t).len() as int;
    assert(leaves(t).first() == tokens[at]);
    assert(leaves(t).last() == tokens[at + n - 1]);
    Range::lemma_from_to(leaves(t).first().range.spec_lo(), leaves(t).last().range.spec_hi());
    lemma_ends_in_order(tokens, at, at + n - 1);
}

/// The spans of the children of a node, in order.
pub open spec fn child_spans(t: Tree) -> Seq<Range> {
    Seq::new(t.children().len(), |m: int| span(t.children()[m]))
}

/// The spans of the children of a node tile the span of the node, and so
/// the text of the node is the texts of its children, one after the other.
pub proof fn lemma_text_of_children(
    text: Seq<char>,
    tokens: Seq<RawToken>,
    start: int,
    end: int,
    t: Tree,
    at: int,
)
    requires
        tiles(text, ranges_of(tokens), start, end),
        on_tokens(t, tokens, at),
        t is Composite,
        spannable(t),
    ensures
        tiles(text, child_spans(t), span(t).spec_lo() as int, span(t).spec_hi() as int),
        text_of(text, span(t)) == joined(text, child_spans(t)),
{
    let ts = t.children();
    let spans = child_spans(t);
    lemma_tiling_tokens(text, tokens, start, end);
    lemma_span_of_composite(t);
    lemma_span_in_text(text, tokens, start, end, t, at);
    assert forall|k: int| 0 <= k < spans.len() implies (#[trigger] spans[k]).wf() && is_boundary(
        text,
        spans[k].spec_lo() as int,
    ) && is_boundary(text, spans[k].spec_hi() as int) by {
        lemma_all_spannable(ts, k);
        lemma_child_on_tokens(ts, tokens, at, k);
        lemma_span_in_text(text, tokens, start, end, ts[k], at + leaves_before(ts, k));
    }
    assert forall|k: int| 0 <= k < spans.len() - 1 implies (#[trigger] spans[k]).spec_hi()
        == spans[k + 1].spec_lo() by {
        lemma_all_spannable(ts, k);
        lemma_all_spannable(ts, k + 1);
        lemma_contiguity(t, tokens, at, k);
    }
    assert(spans[0] == span(ts.first()));
    assert(spans.last() == span(ts.last()));
    lemma_tiles_join(text, spans, span(t).spec_lo() as int, span(t).spec_hi() as int);
}

/// Among consecutive non-empty tokens, a later one ends after an earlier
/// one begins.
pub proof fn lemma_ends_in_order(tokens: Seq<RawToken>, i: int, j: int)
    requires
        consecutive(tokens),
        forall|k: int| 0 <= k < tokens.len() ==> (#[trigger] tokens[k]).range.wf(),
        0 <= i <= j < tokens.len(),
    ensures
        tokens[i].range.spec_lo() < tokens[j].range.spec_hi(),
    decreases j - i,
{
    if i < j {
        lemma_ends_in_order(tokens, i, j - 1);
        assert(tokens[j - 1].range.spec_hi() == tokens[j].range.spec_lo());
        assert(tokens[j].range.wf());
    } else {
        assert(tokens[i].range.wf());
    }
}

} // verus!
