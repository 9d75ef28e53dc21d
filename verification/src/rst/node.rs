//! The finished tree and the handles that read it.

use crate::chars::{debug_quote, debug_quoted};
use crate::node_type::{whitespace, NodeType};
use crate::range::{byte_len, joined, slice_text, text_of, tiles, Range};
use crate::rst::builder::{raw_tokens, RstBuilder};
use crate::rst::layout::{child_ok, closed_ok, link_of, links_ok, tree_at, trees_of, Model};
use crate::rst::raw::{NodeId, RawNode, RawNodeData, RawNodes};
use crate::rst::tree::{
    all_spannable, child_spans, consecutive, leaves, lemma_text_of_children, lemma_all_spannable, lemma_all_spannable_intro, lemma_contiguity, lemma_filter_empty, lemma_filter_first_kept,
    lemma_filter_leading_whitespace, lemma_span_in_text, lemma_span_of_composite,
    lemma_next_kept, lemma_next_kept_is, lemma_span_of_leaf, lemma_tiling_tokens, next_kept,
    not_whitespace, on_tokens, span, spannable, Tree,
};
use crate::token::{ranges_of, RawToken, TokenFile};
use vstd::prelude::*;
use vstd::string::StringExecFns;

verus! {

/// As many pairs of spaces as `level` says.
pub open spec fn indent(level: nat) -> Seq<char> {
    Seq::new(2 * level, |i: int| ' ')
}

/// The line that shows the root of `t`: its name after the indentation,
/// and for a leaf its quoted text.
pub open spec fn node_line(text: Seq<char>, t: Tree, level: nat) -> Seq<char> {
    indent(level) + t.ty().1@ + (match t {
        Tree::Leaf { range, .. } => seq![' '] + debug_quoted(text_of(text, range)),
        Tree::Composite { .. } => Seq::empty(),
    }) + seq!['\n']
}

/// The listing of a tree: the line of its root, then the listings of its
/// children, one level deeper.
pub open spec fn tree_listing(text: Seq<char>, t: Tree, level: nat) -> Seq<char>
    decreases t, 0nat,
{
    match t {
        Tree::Leaf { .. } => node_line(text, t, level),
        Tree::Composite { children, .. } => node_line(text, t, level) + forest_listing(
            text,
            children,
            level + 1,
        ),
    }
}

/// The listings of the trees, one after the other.
pub open spec fn forest_listing(text: Seq<char>, ts: Seq<Tree>, level: nat) -> Seq<char>
    decreases ts, 1nat,
{
    if ts.len() == 0 {
        Seq::empty()
    } else {
        forest_listing(text, ts.drop_last(), level) + tree_listing(text, ts.last(), level)
    }
}

/// Whether `nodes` are the children of `parent`, in order.
pub open spec fn children_match<'f>(nodes: Seq<Node<'f>>, parent: Node<'f>) -> bool {
    &&& nodes.len() == parent.tree().children().len()
    &&& forall|i: int|
        0 <= i < nodes.len() ==> {
            &&& (#[trigger] nodes[i]).wf()
            &&& nodes[i].file() == parent.file()
            &&& nodes[i].tree() == parent.tree().children()[i]
            &&& nodes[i].rank() < parent.rank()
        }
}

/// A text with the syntax tree that a parser built over its tokens.
pub struct RstFile {
    text: String,
    nodes: RawNodes,
    model: Ghost<Model>,
    tokens: Ghost<Seq<RawToken>>,
}

/// A node of a tree: the tree's file and the index of the node in it.
#[derive(Clone, Copy)]
pub struct Node<'f> {
    file: &'f RstFile,
    id: NodeId,
}

/// A walk over the children of a node, whitespace among them or not.
pub struct ChildrenIterator<'f> {
    skip_ws: bool,
    file: &'f RstFile,
    current: Option<NodeId>,
    parent: Ghost<int>,
    taken: Ghost<int>,
}

impl RstFile {
    /// The text of the file.
    pub closed spec fn text_spec(&self) -> Seq<char> {
        self.text@
    }

    /// The tokens that the text was cut into.
    pub closed spec fn tokens_spec(&self) -> Seq<RawToken> {
        self.tokens@
    }

    /// The tree of the file.
    pub closed spec fn tree(&self) -> Tree {
        self.model@.sub[0]
    }

    /// The arena stores the tree, the leaves of the tree are the first of
    /// the tokens, and the tokens tile the text.
    pub closed spec fn wf(&self) -> bool {
        let nodes = self.nodes@;
        let m = self.model@;
        &&& nodes.len() > 0
        &&& m.kids.len() == nodes.len()
        &&& m.sub.len() == nodes.len()
        &&& m.at.len() == nodes.len()
        &&& m.at[0] == 0
        &&& !(nodes[0].data is Leaf)
        &&& byte_len(self.text@) <= u32::MAX
        &&& tiles(self.text@, ranges_of(self.tokens@), 0, byte_len(self.text@) as int)
        &&& forall|i: int| 0 <= i < nodes.len() ==> #[trigger] links_ok(nodes, m.kids, i)
        &&& forall|i: int|
            0 <= i < nodes.len() ==> #[trigger] closed_ok(
                nodes,
                m,
                self.tokens@,
                self.tokens@.len() as int,
                i,
            )
    }

    /// The root of a file is an inner node, its leaves are the first of the
    /// tokens, and the tokens tile the text.
    pub proof fn lemma_tree(&self)
        requires
            self.wf(),
        ensures
            self.tree() is Composite,
            on_tokens(self.tree(), self.tokens_spec(), 0),
            tiles(
                self.text_spec(),
                ranges_of(self.tokens_spec()),
                0,
                byte_len(self.text_spec()) as int,
            ),
    {
        assert(closed_ok(self.nodes@, self.model@, self.tokens@, self.tokens@.len() as int, 0));
    }

    fn raw(&self, id: NodeId) -> (node: &RawNode)
        requires
            id.0 < self.nodes@.len(),
        ensures
            *node == self.nodes@[id.0 as int],
    {
        self.nodes.get(id)
    }

    /// The root of the tree: the node of the whole file.
    pub fn root(&self) -> (root: Node<'_>)
        requires
            self.wf(),
        ensures
            root.wf(),
            root.file() == *self,
            root.tree() == self.tree(),
            root.index() == 0,
    {
        Node { file: self, id: NodeId(0) }
    }

    /// Builds the tree of `file`: opens the root, of type `file_type`,
    /// lets `parser` shape the tokens and closes the root. Whitespace
    /// before and after what `parser` consumes goes below the root.
    pub fn new<P: Fn(&mut RstBuilder)>(file: TokenFile, file_type: NodeType, parser: &P) -> (rst:
        RstFile)
        requires
            file.wf(),
            forall|b: &mut RstBuilder|
                b.wf() && b.is_opened(file_type, file.tokens_spec()) ==> call_requires(
                    *parser,
                    (b,),
                ),
            forall|b: &mut RstBuilder|
                b.wf() && b.is_opened(file_type, file.tokens_spec()) && call_ensures(
                    *parser,
                    (b,),
                    (),
                ) ==> final(b).wf() && final(b).balanced_since(b),
        ensures
            rst.wf(),
            rst.text_spec() == file.text_spec(),
            rst.tokens_spec() == file.tokens_spec(),
            exists|b: &mut RstBuilder|
                b.wf() && b.is_opened(file_type, file.tokens_spec()) && call_ensures(
                    *parser,
                    (b,),
                    (),
                ) && rst.tree() == final(b).closing_tree(),
    {
        let ghost toks = file.tokens_spec();
        let parts = {
            let tokens = file.tokens();
            proof {
                assert(raw_tokens(tokens@) =~= toks);
            }
            let mut builder = RstBuilder::open_file(tokens.as_slice(), file_type);
            parser(&mut builder);
            builder.close_file(file_type)
        };
        RstFile { text: file.into_text(), nodes: parts.0, model: parts.1, tokens: Ghost(toks) }
    }

    /// The listing of the tree below the root: a line for each node, with
    /// two spaces of indentation for each level.
    pub fn dump(&self) -> (listing: String)
        requires
            self.wf(),
        ensures
            listing@ == forest_listing(self.text_spec(), self.tree().children(), 0),
    {
        let mut buff = String::new();
        let root = self.root();
        let ghost ts = self.tree().children();
        let mut children = root.children_with_ws();
        let ghost mut m: int = 0;
        loop
            invariant
                self.wf(),
                children.wf(),
                children.file() == *self,
                !children.skips_whitespace(),
                children.floor() == 0,
                0 <= m <= ts.len(),
                children.remaining() == ts.skip(m),
                buff@ == forest_listing(self.text_spec(), ts.take(m), 0),
            ensures
                m == ts.len(),
                buff@ == forest_listing(self.text_spec(), ts.take(m), 0),
            decreases ts.len() - m,
        {
            match children.next() {
                Some(child) => {
                    child.dump(&mut buff, 0);
                    proof {
                        assert(ts.take(m + 1).drop_last() =~= ts.take(m));
                        assert(ts.skip(m).drop_first() =~= ts.skip(m + 1));
                        m = m + 1;
                    }
                },
                None => {
                    break ;
                },
            }
        }
        proof {
            assert(ts.take(m) =~= ts);
        }
        buff
    }
}

impl<'f> Node<'f> {
    /// The file that the node belongs to.
    pub closed spec fn file(&self) -> RstFile {
        *self.file
    }

    /// The index of the node in the arena of its file.
    pub closed spec fn index(&self) -> int {
        self.id.0 as int
    }

    /// The node is a node of a well-formed file.
    pub closed spec fn wf(&self) -> bool {
        self.file.wf() && self.id.0 < self.file.nodes@.len()
    }

    /// The tree below the node.
    pub closed spec fn tree(&self) -> Tree {
        self.file.model@.sub[self.id.0 as int]
    }

    /// The number of nodes of the file that do not come before this one: a
    /// child has a smaller rank than its parent.
    pub closed spec fn rank(&self) -> nat {
        (self.file.nodes@.len() - self.id.0) as nat
    }

    /// The number of the token at which the tree below the node begins.
    pub closed spec fn first_token(&self) -> int {
        self.file.model@.at[self.id.0 as int]
    }

    /// The tree below a node lies on the tokens of its file, and its root is
    /// of the kind that the arena stores.
    pub proof fn lemma_on_tokens(&self)
        requires
            self.wf(),
        ensures
            on_tokens(self.tree(), self.file().tokens_spec(), self.first_token()),
            self.file().wf(),
    {
        let file = *self.file;
        assert(closed_ok(
            file.nodes@,
            file.model@,
            file.tokens@,
            file.tokens@.len() as int,
            self.id.0 as int,
        ));
    }

    /// Contiguity: a child of a node begins exactly where the child before
    /// it ends.
    pub proof fn lemma_contiguity(&self, m: int)
        requires
            self.wf(),
            0 <= m < self.tree().children().len() - 1,
            spannable(self.tree().children()[m]),
            spannable(self.tree().children()[m + 1]),
        ensures
            span(self.tree().children()[m]).spec_hi() == span(
                self.tree().children()[m + 1],
            ).spec_lo(),
    {
        self.lemma_node();
        lemma_contiguity(self.tree(), self.file.tokens@, self.first_token(), m);
    }

    /// The text of an inner node is the texts of its children, one after
    /// the other.
    pub proof fn lemma_text_of_children(&self)
        requires
            self.wf(),
            self.tree() is Composite,
            spannable(self.tree()),
        ensures
            text_of(self.file().text_spec(), span(self.tree())) == joined(
                self.file().text_spec(),
                child_spans(self.tree()),
            ),
    {
        self.lemma_node();
        lemma_text_of_children(
            self.file.text@,
            self.file.tokens@,
            0,
            byte_len(self.file.text@) as int,
            self.tree(),
            self.first_token(),
        );
    }

    proof fn lemma_node(&self)
        requires
            self.wf(),
        ensures
            self.tree() == tree_at(
                self.file.nodes@,
                self.file.model@.kids,
                self.file.model@.sub,
                self.id.0 as int,
            ),
            self.tree().ty() == self.file.nodes@[self.id.0 as int].ty,
            self.tree().children() == trees_of(
                self.file.model@.sub,
                self.file.model@.kids[self.id.0 as int],
            ),
            links_ok(self.file.nodes@, self.file.model@.kids, self.id.0 as int),
            on_tokens(self.tree(), self.file.tokens@, self.first_token()),
            consecutive(self.file.tokens@),
    {
        let file = *self.file;
        let i = self.id.0 as int;
        assert(closed_ok(file.nodes@, file.model@, file.tokens@, file.tokens@.len() as int, i));
        assert(links_ok(file.nodes@, file.model@.kids, i));
        lemma_tiling_tokens(file.text@, file.tokens@, 0, byte_len(file.text@) as int);
        assert(trees_of(file.model@.sub, Seq::<NodeId>::empty()) =~= Seq::<Tree>::empty());
    }

    fn raw(&self) -> (node: &RawNode)
        requires
            self.wf(),
        ensures
            *node == self.file.nodes@[self.id.0 as int],
    {
        self.file.raw(self.id)
    }

    /// The type of the node.
    pub fn ty(&self) -> (ty: NodeType)
        requires
            self.wf(),
        ensures
            ty == self.tree().ty(),
    {
        proof {
            self.lemma_node();
        }
        self.raw().ty
    }

    /// The children of the node, in the order of the text.
    pub fn children_with_ws(&self) -> (children: ChildrenIterator<'f>)
        requires
            self.wf(),
        ensures
            children.wf(),
            children.file() == self.file(),
            !children.skips_whitespace(),
            children.floor() == self.index(),
            children.rank() == self.rank(),
            children.origin() == self.tree().children(),
            children.passed() == 0,
            children.remaining() == self.tree().children(),
            children.yields() == self.tree().children(),
    {
        proof {
            self.lemma_node();
            assert(self.tree().children().skip(0) =~= self.tree().children());
        }
        ChildrenIterator {
            skip_ws: false,
            file: self.file,
            current: self.raw().first_child(),
            parent: Ghost(self.id.0 as int),
            taken: Ghost(0),
        }
    }

    /// The children of the node that are not whitespace, in the order of
    /// the text.
    pub fn children(&self) -> (children: ChildrenIterator<'f>)
        requires
            self.wf(),
        ensures
            children.wf(),
            children.file() == self.file(),
            children.skips_whitespace(),
            children.floor() == self.index(),
            children.rank() == self.rank(),
            children.origin() == self.tree().children(),
            children.passed() == 0,
            children.remaining() == self.tree().children(),
            children.yields() == self.tree().children().filter(not_whitespace()),
    {
        proof {
            self.lemma_node();
            assert(self.tree().children().skip(0) =~= self.tree().children());
        }
        ChildrenIterator {
            skip_ws: true,
            file: self.file,
            current: self.raw().first_child(),
            parent: Ghost(self.id.0 as int),
            taken: Ghost(0),
        }
    }

    /// Whether the node is an inner node, and not a token.
    pub fn is_composite(&self) -> (yes: bool)
        requires
            self.wf(),
        ensures
            yes == (self.tree() is Composite),
    {
        proof {
            self.lemma_node();
        }
        match &self.raw().data {
            RawNodeData::Leaf { .. } => false,
            RawNodeData::Composite { .. } => true,
        }
    }

    /// A token has no children.
    pub proof fn lemma_kind(&self)
        requires
            self.wf(),
        ensures
            self.tree() is Leaf ==> self.tree().children().len() == 0,
    {
    }

    /// The children of the node, whitespace among them, as a vector.
    pub fn children_vec(&self) -> (nodes: Vec<Node<'f>>)
        requires
            self.wf(),
        ensures
            children_match(nodes@, *self),
    {
        let ghost ts = self.tree().children();
        let mut nodes: Vec<Node<'f>> = Vec::new();
        let mut children = self.children_with_ws();
        loop
            invariant
                self.wf(),
                ts == self.tree().children(),
                children.wf(),
                !children.skips_whitespace(),
                children.origin() == ts,
                children.file() == self.file(),
                children.rank() == self.rank(),
                nodes@.len() == children.passed(),
                forall|i: int|
                    0 <= i < nodes@.len() ==> (#[trigger] nodes@[i]).wf() && nodes@[i].file()
                        == self.file() && nodes@[i].tree() == ts[i] && nodes@[i].rank()
                        < self.rank(),
            ensures
                children_match(nodes@, *self),
            decreases ts.len() - children.passed(),
        {
            match children.next() {
                Some(child) => {
                    nodes.push(child);
                },
                None => {
                    break ;
                },
            }
        }
        nodes
    }

    /// Whether the node has a text: whether every inner node at or below
    /// it has a child.
    pub fn has_span(&self) -> (yes: bool)
        requires
            self.wf(),
        ensures
            yes == spannable(self.tree()),
        decreases self.rank(),
    {
        proof {
            self.lemma_node();
        }
        match &self.raw().data {
            RawNodeData::Leaf { .. } => true,
            RawNodeData::Composite { .. } => {
                let ghost ts = self.tree().children();
                let nodes = self.children_vec();
                if nodes.len() == 0 {
                    return false;
                }
                let mut i: usize = 0;
                while i < nodes.len()
                    invariant
                        i <= nodes.len(),
                        self.wf(),
                        ts == self.tree().children(),
                        children_match(nodes@, *self),
                        forall|m: int| 0 <= m < i ==> spannable(#[trigger] ts[m]),
                    decreases nodes.len() - i,
                {
                    if !nodes[i].has_span() {
                        proof {
                            if all_spannable(ts) {
                                lemma_all_spannable(ts, i as int);
                            }
                        }
                        return false;
                    }
                    i += 1;
                }
                proof {
                    lemma_all_spannable_intro(ts);
                }
                true
            },
        }
    }

    /// The text that the node covers.
    pub fn text(&self) -> (text: &'f str)
        requires
            self.wf(),
            spannable(self.tree()),
        ensures
            text@ == text_of(self.file().text_spec(), span(self.tree())),
            byte_len(text@) <= u32::MAX,
    {
        let range = self.range();
        proof {
            self.lemma_node();
            lemma_span_in_text(
                self.file.text@,
                self.file.tokens@,
                0,
                byte_len(self.file.text@) as int,
                self.tree(),
                self.first_token(),
            );
        }
        slice_text(self.file.text.as_str(), range)
    }

    fn range(&self) -> (range: Range)
        requires
            self.wf(),
            spannable(self.tree()),
        ensures
            range == span(self.tree()),
        decreases self.file.nodes@.len() - self.id.0, 1nat,
    {
        proof {
            self.lemma_node();
        }
        match &self.raw().data {
            RawNodeData::Leaf { range } => {
                proof {
                    lemma_span_of_leaf(self.tree().ty(), *range);
                }
                *range
            },
            RawNodeData::Composite { cached_range, .. } => {
                let me = *self;
                proof {
                    let file = *self.file;
                    assert(closed_ok(
                        file.nodes@,
                        file.model@,
                        file.tokens@,
                        file.tokens@.len() as int,
                        self.id.0 as int,
                    ));
                }
                let compute = || -> (r: Range)
                    requires
                        me.wf(),
                        spannable(me.tree()),
                        me.tree() is Composite,
                    ensures
                        r == span(me.tree()),
                {
                    me.compute_range()
                };
                cached_range.get(compute)
            },
        }
    }

    fn compute_range(&self) -> (range: Range)
        requires
            self.wf(),
            spannable(self.tree()),
            self.tree() is Composite,
        ensures
            range == span(self.tree()),
        decreases self.file.nodes@.len() - self.id.0, 0nat,
    {
        let ghost t = self.tree();
        let ghost ts = t.children();
        let ghost toks = self.file.tokens@;
        let ghost at = self.first_token();
        proof {
            self.lemma_node();
            lemma_all_spannable(ts, 0);
        }
        let mut children = self.children_with_ws();
        let first = children.next().unwrap();
        let first_range = first.range();
        let lo = first_range.lo();
        let mut hi = first_range.hi();
        let ghost mut m: int = 1;
        proof {
            assert(ts.skip(0).drop_first() =~= ts.skip(1));
        }
        loop
            invariant
                self.wf(),
                t == self.tree(),
                ts == t.children(),
                t is Composite,
                spannable(t),
                toks == self.file.tokens@,
                on_tokens(t, toks, at),
                consecutive(toks),
                children.wf(),
                children.file() == self.file(),
                !children.skips_whitespace(),
                children.floor() == self.index(),
                1 <= m <= ts.len(),
                children.remaining() == ts.skip(m),
                lo == span(ts[0]).spec_lo(),
                hi == span(ts[m - 1]).spec_hi(),
            ensures
                m == ts.len(),
                lo == span(ts[0]).spec_lo(),
                hi == span(ts[m - 1]).spec_hi(),
            decreases ts.len() - m,
        {
            match children.next() {
                Some(child) => {
                    proof {
                        lemma_all_spannable(ts, m);
                        lemma_all_spannable(ts, m - 1);
                        lemma_contiguity(t, toks, at, m - 1);
                    }
                    let r = child.range();
                    vstd::pervasive::runtime_assert(r.lo() == hi);
                    hi = r.hi();
                    proof {
                        assert(ts.skip(m).drop_first() =~= ts.skip(m + 1));
                        m = m + 1;
                    }
                },
                None => {
                    break ;
                },
            }
        }
        proof {
            lemma_span_of_composite(t);
            lemma_span_in_text(
                self.file.text@,
                toks,
                0,
                byte_len(self.file.text@) as int,
                t,
                at,
            );
        }
        let range = Range::from_to(lo, hi);
        proof {
            range.lemma_ext(span(t));
        }
        range
    }

    fn dump(&self, buff: &mut String, level: usize)
        requires
            self.wf(),
            level <= self.index(),
        ensures
            final(buff)@ == old(buff)@ + tree_listing(
                self.file().text_spec(),
                self.tree(),
                level as nat,
            ),
        decreases self.file.nodes@.len() - self.id.0,
    {
        let ghost text = self.file.text@;
        let ghost t = self.tree();
        let ghost start = buff@;
        proof {
            self.lemma_node();
            reveal_strlit("  ");
            reveal_strlit(" ");
            reveal_strlit("\n");
        }
        let mut i: usize = 0;
        while i < level
            invariant
                i <= level,
                buff@ == start + indent(i as nat),
            decreases level - i,
        {
            buff.append("  ");
            proof {
                reveal_strlit("  ");
                assert("  "@ =~= seq![' ', ' ']);
                assert(start + indent(i as nat) + seq![' ', ' '] =~= start + indent((i + 1) as nat));
            }
            i += 1;
        }
        buff.append(self.ty().name());
        match &self.raw().data {
            RawNodeData::Leaf { range } => {
                proof {
                    lemma_tiling_tokens(
                        text,
                        self.file.tokens@,
                        0,
                        byte_len(text) as int,
                    );
                    assert(leaves(t).first() == self.file.tokens@[self.first_token()]);
                }
                let quoted = debug_quote(slice_text(self.file.text.as_str(), *range));
                buff.append(" ");
                buff.append(quoted.as_str());
                proof {
                    assert(" "@ =~= seq![' ']);
                }
            },
            RawNodeData::Composite { .. } => {},
        }
        buff.append("\n");
        proof {
            assert("\n"@ =~= seq!['\n']);
            assert(buff@ =~= start + node_line(text, t, level as nat));
            assert(start + Seq::<char>::empty() =~= start);
        }
        let ghost ts = t.children();
        let ghost line = node_line(text, t, level as nat);
        let mut children = self.children_with_ws();
        let ghost mut m: int = 0;
        loop
            invariant
                self.wf(),
                t == self.tree(),
                ts == t.children(),
                text == self.file.text@,
                level <= self.index(),
                children.wf(),
                children.file() == self.file(),
                !children.skips_whitespace(),
                children.floor() == self.index(),
                0 <= m <= ts.len(),
                children.remaining() == ts.skip(m),
                buff@ == start + line + forest_listing(text, ts.take(m), (level + 1) as nat),
            ensures
                m == ts.len(),
                buff@ == start + line + forest_listing(text, ts.take(m), (level + 1) as nat),
            decreases ts.len() - m,
        {
            match children.next() {
                Some(child) => {
                    let ghost before = buff@;
                    child.dump(buff, level + 1);
                    proof {
                        assert(ts.take(m + 1).drop_last() =~= ts.take(m));
                        assert(ts.skip(m).drop_first() =~= ts.skip(m + 1));
                        assert(buff@ =~= start + line + forest_listing(
                            text,
                            ts.take(m + 1),
                            (level + 1) as nat,
                        ));
                        m = m + 1;
                    }
                },
                None => {
                    break ;
                },
            }
        }
        proof {
            assert(ts.take(m) =~= ts);
            assert(buff@ =~= start + tree_listing(text, t, level as nat));
        }
    }
}

impl<'f> ChildrenIterator<'f> {
    /// The file of the node whose children are walked.
    pub closed spec fn file(&self) -> RstFile {
        *self.file
    }

    /// Whether the walk passes over whitespace.
    pub closed spec fn skips_whitespace(&self) -> bool {
        self.skip_ws
    }

    /// The index of the node whose children are walked: each of them has a
    /// larger one.
    pub closed spec fn floor(&self) -> int {
        self.parent@
    }

    /// The rank of the node whose children are walked: each of them has a
    /// smaller one.
    pub closed spec fn rank(&self) -> nat {
        (self.file.nodes@.len() - self.parent@) as nat
    }

    /// The trees of all the children of the node, in the order of the text.
    pub closed spec fn origin(&self) -> Seq<Tree> {
        trees_of(self.file.model@.sub, self.file.model@.kids[self.parent@])
    }

    /// The number of children that the walk has passed.
    pub closed spec fn passed(&self) -> int {
        self.taken@
    }

    /// The trees of the children that the walk has not passed yet.
    pub open spec fn remaining(&self) -> Seq<Tree> {
        self.origin().skip(self.passed())
    }

    /// The position among the children of the one that the walk hands out
    /// next, or their number where none is left.
    pub open spec fn next_index(&self) -> int {
        if self.skips_whitespace() {
            next_kept(self.origin(), self.passed())
        } else {
            self.passed()
        }
    }

    /// The trees of the children that the walk will hand out.
    pub open spec fn yields(&self) -> Seq<Tree> {
        if self.skips_whitespace() {
            self.remaining().filter(not_whitespace())
        } else {
            self.remaining()
        }
    }

    /// The walk stands at a child of a node of a well-formed file, or
    /// behind the last one.
    pub open spec fn wf(&self) -> bool {
        &&& self.inv()
        &&& 0 <= self.passed() <= self.origin().len()
    }

    /// The link that the walk follows next is that of the child at its
    /// position.
    pub closed spec fn inv(&self) -> bool {
        &&& self.file.wf()
        &&& 0 <= self.parent@ < self.file.nodes@.len()
        &&& 0 <= self.taken@ <= self.file.model@.kids[self.parent@].len()
        &&& self.current == link_of(self.file.model@.kids[self.parent@], self.taken@)
    }

    fn skip_ws(&mut self)
        requires
            old(self).wf(),
        ensures
            final(self).wf(),
            final(self).file == old(self).file,
            final(self).skip_ws == old(self).skip_ws,
            final(self).parent == old(self).parent,
            final(self).passed() == next_kept(old(self).origin(), old(self).passed()),
            final(self).remaining().filter(not_whitespace()) == old(self).remaining().filter(
                not_whitespace(),
            ),
    {
        let ghost kids = self.file.model@.kids[self.parent@];
        let ghost sub = self.file.model@.sub;
        let ghost nodes = self.file.nodes@;
        let ghost first = self.taken@;
        let ghost all = trees_of(sub, kids);
        proof {
            assert(links_ok(nodes, self.file.model@.kids, self.parent@));
        }
        loop
            invariant
                self.wf(),
                self.file == old(self).file,
                self.skip_ws == old(self).skip_ws,
                self.parent == old(self).parent,
                kids == self.file.model@.kids[self.parent@],
                sub == self.file.model@.sub,
                nodes == self.file.nodes@,
                all == trees_of(sub, kids),
                first == old(self).taken@,
                first <= self.taken@ <= kids.len(),
                links_ok(nodes, self.file.model@.kids, self.parent@),
                forall|m: int| first <= m < self.taken@ ==> (#[trigger] all[m]).is_whitespace(),
            ensures
                self.wf(),
                self.file == old(self).file,
                self.skip_ws == old(self).skip_ws,
                self.parent == old(self).parent,
                first <= self.taken@ <= kids.len(),
                forall|m: int| first <= m < self.taken@ ==> (#[trigger] all[m]).is_whitespace(),
                self.taken@ < kids.len() ==> !all[self.taken@].is_whitespace(),
            decreases kids.len() - self.taken@,
        {
            match self.current {
                Some(id) => {
                    proof {
                        assert(child_ok(nodes, self.file.model@.kids, self.parent@, self.taken@));
                        assert(closed_ok(
                            nodes,
                            self.file.model@,
                            self.file.tokens@,
                            self.file.tokens@.len() as int,
                            id.0 as int,
                        ));
                    }
                    let node = self.file.raw(id);
                    if !(node.ty == whitespace()) {
                        break ;
                    }
                    self.current = node.next_sibling;
                    proof {
                        self.taken@ = self.taken@ + 1;
                    }
                },
                None => {
                    break ;
                },
            }
        }
        proof {
            let before = all.skip(first);
            let j = self.taken@ - first;
            assert(self.remaining() =~= before.skip(j));
            assert forall|m: int| 0 <= m < j implies (#[trigger] before[m]).is_whitespace() by {
                assert(before[m] == all[first + m]);
            }
            lemma_filter_leading_whitespace(before, j);
            lemma_next_kept_is(all, first, self.taken@);
        }
    }

    fn take(&mut self) -> (child: Option<Node<'f>>)
        requires
            old(self).wf(),
        ensures
            final(self).wf(),
            final(self).file == old(self).file,
            final(self).skip_ws == old(self).skip_ws,
            final(self).parent == old(self).parent,
            match child {
                Some(node) => {
                    &&& old(self).passed() < old(self).origin().len()
                    &&& node.wf()
                    &&& node.file() == old(self).file()
                    &&& node.tree() == old(self).origin()[old(self).passed()]
                    &&& node.index() > old(self).floor()
                    &&& node.rank() < old(self).rank()
                    &&& final(self).passed() == old(self).passed() + 1
                },
                None => old(self).passed() == old(self).origin().len() && final(self).passed()
                    == old(self).passed(),
            },
    {
        proof {
            assert(links_ok(self.file.nodes@, self.file.model@.kids, self.parent@));
        }
        match self.current {
            Some(id) => {
                proof {
                    assert(child_ok(
                        self.file.nodes@,
                        self.file.model@.kids,
                        self.parent@,
                        self.taken@,
                    ));
                }
                self.current = self.file.raw(id).next_sibling;
                proof {
                    self.taken@ = self.taken@ + 1;
                }
                Some(Node { file: self.file, id })
            },
            None => None,
        }
    }

    /// The next child, if one is left.
    pub fn next(&mut self) -> (child: Option<Node<'f>>)
        requires
            old(self).wf(),
        ensures
            final(self).wf(),
            final(self).file() == old(self).file(),
            final(self).skips_whitespace() == old(self).skips_whitespace(),
            final(self).floor() == old(self).floor(),
            final(self).rank() == old(self).rank(),
            final(self).origin() == old(self).origin(),
            old(self).passed() <= old(self).next_index() <= old(self).origin().len(),
            match child {
                Some(node) => {
                    &&& old(self).next_index() < old(self).origin().len()
                    &&& node.wf()
                    &&& node.file() == old(self).file()
                    &&& node.tree() == old(self).origin()[old(self).next_index()]
                    &&& node.index() > old(self).floor()
                    &&& node.rank() < old(self).rank()
                    &&& final(self).passed() == old(self).next_index() + 1
                    &&& old(self).yields().len() > 0
                    &&& node.tree() == old(self).yields()[0]
                    &&& final(self).yields() == old(self).yields().drop_first()
                },
                None => {
                    &&& old(self).next_index() == old(self).origin().len()
                    &&& final(self).passed() == old(self).origin().len()
                    &&& old(self).yields().len() == 0
                },
            },
    {
        proof {
            lemma_next_kept(self.origin(), self.passed());
        }
        if self.skip_ws {
            self.skip_ws();
        }
        let ghost mid = self.remaining();
        let child = self.take();
        proof {
            if mid.len() > 0 {
                assert(self.remaining() =~= mid.drop_first());
                assert(mid[0] == old(self).origin()[old(self).next_index()]);
            }
            if self.skip_ws {
                if mid.len() > 0 {
                    lemma_filter_first_kept(mid);
                    assert(mid.skip(1) =~= mid.drop_first());
                    assert((seq![mid[0]] + mid.skip(1).filter(not_whitespace())).drop_first()
                        =~= mid.skip(1).filter(not_whitespace()));
                } else {
                    assert(mid =~= Seq::<Tree>::empty());
                    lemma_filter_empty();
                }
            }
        }
        child
    }

    /// Passes the next child, which is of type `ty`.
    pub fn skip_node(&mut self, ty: NodeType)
        requires
            old(self).wf(),
            old(self).next_index() < old(self).origin().len(),
            old(self).origin()[old(self).next_index()].ty().0 == ty.0,
        ensures
            final(self).wf(),
            final(self).file() == old(self).file(),
            final(self).skips_whitespace() == old(self).skips_whitespace(),
            final(self).floor() == old(self).floor(),
            final(self).rank() == old(self).rank(),
            final(self).origin() == old(self).origin(),
            final(self).passed() == old(self).next_index() + 1,
            final(self).yields() == old(self).yields().drop_first(),
    {
        let child = self.next().unwrap();
        vstd::pervasive::runtime_assert(child.ty() == ty);
    }

    /// Ends a walk that has passed every child.
    pub fn finish(&mut self)
        requires
            old(self).wf(),
            old(self).passed() == old(self).origin().len(),
        ensures
            *final(self) == *old(self),
    {
        vstd::pervasive::runtime_assert(self.current.is_none());
    }
}

} // verus!
