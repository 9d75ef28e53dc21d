//! Typed views of the trees of the list grammar.

use crate::decimal::{decimal_value, number_ok, parse_u32};
use crate::node_type::NodeType;
use crate::range::{
    byte_len, byte_offset, char_width, is_boundary, lemma_bytes_between, lemma_offset_ends,
    lemma_offset_step, slice_between, text_of,
};
use crate::rst::node::{Node, RstFile};
use crate::rst::tree::{lemma_next_kept, next_kept, span, spannable, Tree};
use crate::tiny::{
    file_type, id, list, list_type, literal, literal_type, lparen, number, parse_tiny, rparen,
    string, tiny_file,
};
use vstd::prelude::*;

verus! {

/// Whether a node of this type is an element of a list: a literal, a
/// variable or a list.
pub open spec fn element_type(ty: NodeType) -> bool {
    ty.0 == 9 || ty.0 == 7 || ty.0 == 10
}

/// The trees among `ts` that are elements, in their order.
pub open spec fn elements_in(ts: Seq<Tree>) -> Seq<Tree>
    decreases ts.len(),
{
    if ts.len() == 0 {
        Seq::empty()
    } else if element_type(ts.last().ty()) {
        elements_in(ts.drop_last()).push(ts.last())
    } else {
        elements_in(ts.drop_last())
    }
}

/// Whether the children of the root of a file are elements and whitespace.
pub open spec fn program_shape(t: Tree) -> bool {
    forall|m: int|
        0 <= m < t.children().len() ==> (#[trigger] t.children()[m]).is_whitespace()
            || element_type(t.children()[m].ty())
}

/// Whether the children of a list are a left parenthesis, elements and
/// whitespace, and a right parenthesis at the end.
pub open spec fn list_shape(t: Tree) -> bool {
    let cs = t.children();
    let a = next_kept(cs, 0);
    &&& 0 <= a < cs.len() - 1
    &&& cs[a].ty().0 == 3
    &&& cs.last().ty().0 == 4
    &&& forall|m: int|
        a < m < cs.len() - 1 ==> (#[trigger] cs[m]).is_whitespace() || element_type(cs[m].ty())
}

/// Whether a text has a first and a last character of one byte each, as a
/// text in quotes has.
pub open spec fn quoted_ok(s: Seq<char>) -> bool {
    s.len() >= 2 && char_width(s[0]) == 1 && char_width(s.last()) == 1
}

/// Whether a literal has a value: it holds a string whose text is in
/// quotes, or a number whose text is one that fits in 32 bits.
pub open spec fn literal_shape(text: Seq<char>, t: Tree) -> bool {
    let cs = t.children();
    let k = next_kept(cs, 0);
    let covered = text_of(text, span(t));
    &&& spannable(t)
    &&& 0 <= k < cs.len()
    &&& (cs[k].ty().0 == 6 && quoted_ok(covered)) || (cs[k].ty().0 == 5 && number_ok(covered))
}

/// One more tree adds itself to the elements if it is one.
pub proof fn lemma_elements_step(ts: Seq<Tree>, j: int)
    requires
        0 <= j < ts.len(),
    ensures
        elements_in(ts.take(j + 1)) == if element_type(ts[j].ty()) {
            elements_in(ts.take(j)).push(ts[j])
        } else {
            elements_in(ts.take(j))
        },
{
    assert(ts.take(j + 1).drop_last() =~= ts.take(j));
    assert(ts.take(j + 1).last() == ts[j]);
}

/// Trees that are no elements add nothing to the elements.
pub proof fn lemma_elements_skip(ts: Seq<Tree>, from: int, j: int)
    requires
        0 <= from <= j <= ts.len(),
        forall|m: int| from <= m < j ==> !element_type((#[trigger] ts[m]).ty()),
    ensures
        elements_in(ts.take(j)) == elements_in(ts.take(from)),
    decreases j - from,
{
    if from < j {
        lemma_elements_skip(ts, from, j - 1);
        lemma_elements_step(ts, j - 1);
    }
}

/// A file of the list grammar, seen as a program.
pub struct AstFile {
    rst: RstFile,
}

/// A view of a node as a part of a program.
pub trait AstElement<'f>: Sized {
    /// The type of the nodes that this is a view of.
    spec fn type_spec() -> NodeType;

    /// The node that is viewed.
    spec fn node_spec(&self) -> Node<'f>;

    fn ty() -> (ty: NodeType)
        ensures
            ty == Self::type_spec(),
    ;

    fn from_node(node: Node<'f>) -> (element: Self)
        requires
            node.wf(),
            node.tree().ty().0 == Self::type_spec().0,
        ensures
            element.node_spec() == node,
    ;

    fn node(&self) -> (node: Node<'f>)
        ensures
            node == self.node_spec(),
    ;
}

/// The root of a file: a sequence of elements.
#[derive(Clone, Copy)]
pub struct Program<'f> {
    pub node: Node<'f>,
}

/// A list in parentheses.
#[derive(Clone, Copy)]
pub struct List<'f> {
    pub node: Node<'f>,
}

/// A number or a string.
#[derive(Clone, Copy)]
pub struct Literal<'f> {
    pub node: Node<'f>,
}

/// An identifier.
#[derive(Clone, Copy)]
pub struct Variable<'f> {
    pub node: Node<'f>,
}

/// What a literal stands for.
pub enum LiteralValue<'f> {
    Int(u32),
    String(&'f str),
}

/// An element of a list or of a program.
#[derive(Clone, Copy)]
pub enum ListElement<'f> {
    List(List<'f>),
    Literal(Literal<'f>),
    Variable(Variable<'f>),
}

impl<'f> AstElement<'f> for Program<'f> {
    open spec fn type_spec() -> NodeType {
        file_type()
    }

    open spec fn node_spec(&self) -> Node<'f> {
        self.node
    }

    fn ty() -> (ty: NodeType) {
        tiny_file()
    }

    fn from_node(node: Node<'f>) -> (element: Self) {
        vstd::pervasive::runtime_assert(node.ty().0 == Self::ty().0);
        Program { node }
    }

    fn node(&self) -> (node: Node<'f>) {
        self.node
    }
}

impl<'f> AstElement<'f> for List<'f> {
    open spec fn type_spec() -> NodeType {
        list_type()
    }

    open spec fn node_spec(&self) -> Node<'f> {
        self.node
    }

    fn ty() -> (ty: NodeType) {
        list()
    }

    fn from_node(node: Node<'f>) -> (element: Self) {
        vstd::pervasive::runtime_assert(node.ty().0 == Self::ty().0);
        List { node }
    }

    fn node(&self) -> (node: Node<'f>) {
        self.node
    }
}

impl<'f> AstElement<'f> for Literal<'f> {
    open spec fn type_spec() -> NodeType {
        literal_type()
    }

    open spec fn node_spec(&self) -> Node<'f> {
        self.node
    }

    fn ty() -> (ty: NodeType) {
        literal()
    }

    fn from_node(node: Node<'f>) -> (element: Self) {
        vstd::pervasive::runtime_assert(node.ty().0 == Self::ty().0);
        Literal { node }
    }

    fn node(&self) -> (node: Node<'f>) {
        self.node
    }
}

impl<'f> AstElement<'f> for Variable<'f> {
    open spec fn type_spec() -> NodeType {
        crate::tiny::id_type()
    }

    open spec fn node_spec(&self) -> Node<'f> {
        self.node
    }

    fn ty() -> (ty: NodeType) {
        id()
    }

    fn from_node(node: Node<'f>) -> (element: Self) {
        vstd::pervasive::runtime_assert(node.ty().0 == Self::ty().0);
        Variable { node }
    }

    fn node(&self) -> (node: Node<'f>) {
        self.node
    }
}

impl<'f> ListElement<'f> {
    /// The node of the element.
    pub open spec fn inner(&self) -> Node<'f> {
        match self {
            ListElement::List(list) => list.node,
            ListElement::Literal(literal) => literal.node,
            ListElement::Variable(variable) => variable.node,
        }
    }

    /// The element is a view of a node of its kind.
    pub open spec fn wf(&self) -> bool {
        &&& self.inner().wf()
        &&& self.inner().tree().ty().0 == (match self {
            ListElement::List(_) => 10u32,
            ListElement::Literal(_) => 9u32,
            ListElement::Variable(_) => 7u32,
        })
    }

    /// The view of `node` by its type.
    pub fn from_node(node: Node<'f>) -> (element: ListElement<'f>)
        requires
            node.wf(),
            element_type(node.tree().ty()),
        ensures
            element.inner() == node,
            element.wf(),
    {
        let ty = node.ty();
        if ty == literal() {
            ListElement::Literal(Literal::from_node(node))
        } else if ty == id() {
            ListElement::Variable(Variable::from_node(node))
        } else {
            vstd::pervasive::runtime_assert(ty == list());
            ListElement::List(List::from_node(node))
        }
    }
}

/// Whether `elements` are views of children of `parent` whose trees are
/// `trees`.
pub open spec fn elements_match<'f>(
    elements: Seq<ListElement<'f>>,
    parent: Node<'f>,
    trees: Seq<Tree>,
) -> bool {
    &&& elements.len() == trees.len()
    &&& forall|i: int|
        0 <= i < elements.len() ==> {
            &&& (#[trigger] elements[i]).wf()
            &&& elements[i].inner().file() == parent.file()
            &&& elements[i].inner().tree() == trees[i]
            &&& elements[i].inner().rank() < parent.rank()
        }
}

impl AstFile {
    /// The syntax tree of the file.
    pub closed spec fn rst(&self) -> RstFile {
        self.rst
    }

    /// The view of `rst` as a program.
    pub fn new(rst: RstFile) -> (file: AstFile)
        ensures
            file.rst() == rst,
    {
        AstFile { rst }
    }

    /// Parses `text` as a file of the list grammar.
    pub fn from_text(text: &str) -> (file: AstFile)
        requires
            byte_len(text@) <= u32::MAX,
        ensures
            file.rst().wf(),
            file.rst().text_spec() == text@,
            file.rst().tree().ty() == file_type(),
    {
        AstFile::new(parse_tiny(text.to_owned()))
    }

    /// The root node of the syntax tree.
    pub fn node(&self) -> (root: Node<'_>)
        requires
            self.rst().wf(),
        ensures
            root.wf(),
            root.file() == self.rst(),
            root.tree() == self.rst().tree(),
    {
        self.rst.root()
    }

    /// The root of the file as a program.
    pub fn root(&self) -> (program: Program<'_>)
        requires
            self.rst().wf(),
            self.rst().tree().ty().0 == 8,
        ensures
            program.node_spec().wf(),
            program.node_spec().file() == self.rst(),
            program.node_spec().tree() == self.rst().tree(),
    {
        Program::from_node(self.rst.root())
    }
}

impl<'f> Program<'f> {
    /// The elements of the program, in the order of the text.
    pub fn elements(&self) -> (elements: Vec<ListElement<'f>>)
        requires
            self.node_spec().wf(),
            program_shape(self.node_spec().tree()),
        ensures
            elements_match(
                elements@,
                self.node_spec(),
                elements_in(self.node_spec().tree().children()),
            ),
    {
        let ghost cs = self.node.tree().children();
        let mut elements: Vec<ListElement<'f>> = Vec::new();
        let mut children = self.node.children();
        proof {
            assert(cs.take(0) =~= Seq::<Tree>::empty());
        }
        loop
            invariant
                self.node.wf(),
                cs == self.node.tree().children(),
                program_shape(self.node.tree()),
                children.wf(),
                children.skips_whitespace(),
                children.origin() == cs,
                children.file() == self.node.file(),
                children.rank() == self.node.rank(),
                elements_match(elements@, self.node, elements_in(cs.take(children.passed()))),
            ensures
                elements_match(elements@, self.node, elements_in(cs)),
            decreases cs.len() - children.passed(),
        {
            let ghost passed = children.passed();
            proof {
                lemma_next_kept(cs, passed);
                let j = next_kept(cs, passed);
                assert forall|m: int| passed <= m < j implies !element_type(
                    (#[trigger] cs[m]).ty(),
                ) by {}
                lemma_elements_skip(cs, passed, j);
            }
            match children.next() {
                Some(node) => {
                    proof {
                        let j = next_kept(cs, passed);
                        lemma_elements_step(cs, j);
                        assert(!cs[j].is_whitespace());
                    }
                    let element = ListElement::from_node(node);
                    elements.push(element);
                },
                None => {
                    proof {
                        assert(cs.take(cs.len() as int) =~= cs);
                    }
                    break ;
                },
            }
        }
        elements
    }
}

impl<'f> List<'f> {
    /// The elements of the list, in the order of the text.
    pub fn elements(&self) -> (elements: Vec<ListElement<'f>>)
        requires
            self.node_spec().wf(),
            list_shape(self.node_spec().tree()),
        ensures
            elements_match(
                elements@,
                self.node_spec(),
                elements_in(self.node_spec().tree().children()),
            ),
    {
        let ghost cs = self.node.tree().children();
        let ghost a = next_kept(cs, 0);
        let mut result: Vec<ListElement<'f>> = Vec::new();
        let mut children = self.node.children();
        proof {
            lemma_next_kept(cs, 0);
        }
        children.skip_node(lparen());
        proof {
            assert forall|m: int| 0 <= m < a + 1 implies !element_type((#[trigger] cs[m]).ty()) by {}
            lemma_elements_skip(cs, 0, a + 1);
            assert(cs.take(0) =~= Seq::<Tree>::empty());
        }
        loop
            invariant
                self.node.wf(),
                cs == self.node.tree().children(),
                a == next_kept(cs, 0),
                list_shape(self.node.tree()),
                children.wf(),
                children.skips_whitespace(),
                children.origin() == cs,
                children.file() == self.node.file(),
                children.rank() == self.node.rank(),
                a < children.passed() <= cs.len() - 1,
                elements_match(result@, self.node, elements_in(cs.take(children.passed()))),
            decreases cs.len() - children.passed(),
        {
            let ghost passed = children.passed();
            proof {
                lemma_next_kept(cs, passed);
                let j = next_kept(cs, passed);
                assert forall|m: int| passed <= m < j implies !element_type(
                    (#[trigger] cs[m]).ty(),
                ) by {}
                lemma_elements_skip(cs, passed, j);
                assert(!cs[cs.len() - 1].is_whitespace());
                assert(j <= cs.len() - 1);
            }
            match children.next() {
                Some(node) => {
                    proof {
                        let j = next_kept(cs, passed);
                        lemma_elements_step(cs, j);
                        assert(!cs[j].is_whitespace());
                    }
                    if node.ty() == rparen() {
                        proof {
                            assert(cs.take(cs.len() as int) =~= cs);
                        }
                        children.finish();
                        return result;
                    }
                    result.push(ListElement::from_node(node));
                },
                None => {
                    vstd::pervasive::runtime_assert(false);
                },
            }
        }
    }
}

/// The text between the first and the last character of `text`.
fn strip_ends<'a>(text: &'a str) -> (inner: &'a str)
    requires
        quoted_ok(text@),
        byte_len(text@) <= usize::MAX,
    ensures
        inner@ == text@.subrange(1, text@.len() - 1),
{
    let ghost n = text@.len() as int;
    proof {
        lemma_offset_ends(text@);
        lemma_offset_step(text@, 0);
        lemma_offset_step(text@, n - 1);
        assert(text@.last() == text@[n - 1]);
        assert(byte_offset(text@, 1) == 1);
        assert(byte_offset(text@, n) == byte_len(text@));
        assert(byte_offset(text@, n - 1) == byte_len(text@) - 1);
        crate::range::lemma_offset_increases(text@, 1, n - 1);
        assert(byte_len(text@) >= 2);
        assert(is_boundary(text@, 1));
        assert(is_boundary(text@, byte_len(text@) - 1));
        lemma_bytes_between(text@, 1, n - 1);
    }
    let size = text.len();
    slice_between(text, 1, size - 1)
}

impl<'f> Literal<'f> {
    /// The literal is a view of a literal node that has a value.
    pub open spec fn wf(&self) -> bool {
        &&& self.node_spec().wf()
        &&& literal_shape(self.node_spec().file().text_spec(), self.node_spec().tree())
    }

    /// The text that the literal covers.
    pub open spec fn text_spec(&self) -> Seq<char> {
        text_of(self.node_spec().file().text_spec(), span(self.node_spec().tree()))
    }

    /// Whether the literal holds a string, and not a number.
    pub open spec fn holds_string(&self) -> bool {
        let cs = self.node_spec().tree().children();
        cs[next_kept(cs, 0)].ty().0 == 6
    }

    /// The number that the literal spells, or the text between the quotes
    /// of a string.
    pub fn value(&self) -> (value: LiteralValue<'f>)
        requires
            self.wf(),
        ensures
            match value {
                LiteralValue::Int(v) => !self.holds_string() && v == decimal_value(
                    self.text_spec(),
                ),
                LiteralValue::String(s) => self.holds_string() && s@ == self.text_spec().subrange(
                    1,
                    self.text_spec().len() - 1,
                ),
            },
    {
        let text = self.node().text();
        let ty = self.literal_ty();
        if ty == string() {
            LiteralValue::String(strip_ends(text))
        } else {
            vstd::pervasive::runtime_assert(ty == number());
            LiteralValue::Int(parse_u32(text).unwrap())
        }
    }

    fn literal_ty(&self) -> (ty: NodeType)
        requires
            self.node_spec().wf(),
            next_kept(self.node_spec().tree().children(), 0) < self.node_spec().tree().children().len(),
        ensures
            ty == self.node_spec().tree().children()[next_kept(
                self.node_spec().tree().children(),
                0,
            )].ty(),
    {
        let mut children = self.node.children();
        let child = children.next().unwrap();
        child.ty()
    }
}

} // verus!
