//! Checking that a tree of the list grammar has the shape that its typed
//! views and the translation rely on.

use crate::ast::{
    element_type, elements_in, list_shape, literal_shape, quoted_ok, AstFile,
};
use crate::chars::collect_chars;
use crate::decimal::parse_u32;
use crate::node_type::{whitespace, NodeType};
use crate::range::utf8_width;
use crate::rst::node::{children_match, Node};
use crate::rst::tree::{lemma_next_kept_is, next_kept, Tree};
use crate::target::{children_ok, element_ok, program_ok};
use vstd::prelude::*;

verus! {

/// Whether a node of type `ty` is an element of a list.
pub fn is_element_type(ty: NodeType) -> (yes: bool)
    ensures
        yes == element_type(ty),
{
    ty.0 == 9 || ty.0 == 7 || ty.0 == 10
}

/// Whether `text` has a first and a last character of one byte each.
pub fn is_quoted(text: &str) -> (yes: bool)
    ensures
        yes == quoted_ok(text@),
{
    let chars = collect_chars(text);
    let n = chars.len();
    n >= 2 && utf8_width(chars[0]) == 1 && utf8_width(chars[n - 1]) == 1
}

/// The position of the first of `nodes` that is not whitespace, or their
/// number.
fn first_kept(nodes: &Vec<Node>, Ghost(parent): Ghost<Node>) -> (k: usize)
    requires
        children_match(nodes@, parent),
    ensures
        k == next_kept(parent.tree().children(), 0),
        k <= nodes.len(),
{
    let ghost cs = parent.tree().children();
    let mut k: usize = 0;
    while k < nodes.len()
        invariant
            k <= nodes.len(),
            cs == parent.tree().children(),
            children_match(nodes@, parent),
            forall|m: int| 0 <= m < k ==> (#[trigger] cs[m]).is_whitespace(),
        ensures
            k <= nodes.len(),
            forall|m: int| 0 <= m < k ==> (#[trigger] cs[m]).is_whitespace(),
            k < nodes.len() ==> !cs[k as int].is_whitespace(),
        decreases nodes.len() - k,
    {
        if !(nodes[k].ty() == whitespace()) {
            break ;
        }
        k += 1;
    }
    proof {
        lemma_next_kept_is(cs, 0, k as int);
    }
    k
}

/// Whether a literal node has a value.
fn check_literal(node: Node) -> (ok: bool)
    requires
        node.wf(),
    ensures
        ok == literal_shape(node.file().text_spec(), node.tree()),
{
    if !node.has_span() {
        return false;
    }
    let nodes = node.children_vec();
    let k = first_kept(&nodes, Ghost(node));
    if k >= nodes.len() {
        return false;
    }
    let ty = nodes[k].ty();
    let text = node.text();
    if ty.0 == 6 {
        is_quoted(text)
    } else if ty.0 == 5 {
        parse_u32(text).is_some()
    } else {
        false
    }
}

/// Whether the children of a list have the shape of a list.
fn check_list_shape(nodes: &Vec<Node>, Ghost(parent): Ghost<Node>) -> (ok: bool)
    requires
        children_match(nodes@, parent),
    ensures
        ok == list_shape(parent.tree()),
{
    let ghost cs = parent.tree().children();
    let n = nodes.len();
    let a = first_kept(nodes, Ghost(parent));
    if n == 0 || a >= n - 1 {
        return false;
    }
    if nodes[a].ty().0 != 3 || nodes[n - 1].ty().0 != 4 {
        return false;
    }
    let mut m: usize = a + 1;
    while m < n - 1
        invariant
            a < m <= n - 1,
            n == nodes.len(),
            cs == parent.tree().children(),
            a == next_kept(cs, 0),
            cs[a as int].ty().0 == 3,
            cs.last().ty().0 == 4,
            children_match(nodes@, parent),
            forall|j: int|
                a < j < m ==> (#[trigger] cs[j]).is_whitespace() || element_type(cs[j].ty()),
        decreases n - m,
    {
        let ty = nodes[m].ty();
        if !(ty.0 == 1 || is_element_type(ty)) {
            proof {
                assert(!(cs[m as int].is_whitespace() || element_type(cs[m as int].ty())));
            }
            return false;
        }
        m += 1;
    }
    true
}

/// Whether each element among `nodes` can be translated.
fn check_children(nodes: &Vec<Node>, Ghost(parent): Ghost<Node>) -> (ok: bool)
    requires
        children_match(nodes@, parent),
        parent.wf(),
    ensures
        ok == children_ok(parent.file().text_spec(), parent.tree().children()),
    decreases parent.rank(), 0nat,
{
    let ghost cs = parent.tree().children();
    let ghost text = parent.file().text_spec();
    let mut i: usize = 0;
    proof {
        assert(cs.take(0) =~= Seq::<Tree>::empty());
    }
    while i < nodes.len()
        invariant
            i <= nodes.len(),
            cs == parent.tree().children(),
            text == parent.file().text_spec(),
            children_match(nodes@, parent),
            children_ok(text, cs.take(i as int)),
        decreases nodes.len() - i,
    {
        proof {
            assert(cs.take(i + 1).drop_last() =~= cs.take(i as int));
            assert(cs.take(i + 1).last() == cs[i as int]);
        }
        if is_element_type(nodes[i].ty()) {
            if !check_element(nodes[i]) {
                proof {
                    if children_ok(text, cs) {
                        lemma_children_prefix(text, cs, i + 1);
                    }
                }
                return false;
            }
        }
        i += 1;
    }
    proof {
        assert(cs.take(i as int) =~= cs);
    }
    true
}

/// Where the elements among the trees can be translated, those among the
/// first of the trees can.
proof fn lemma_children_prefix(text: Seq<char>, ts: Seq<Tree>, k: int)
    requires
        0 <= k <= ts.len(),
        children_ok(text, ts),
    ensures
        children_ok(text, ts.take(k)),
    decreases ts.len() - k,
{
    if k < ts.len() {
        lemma_children_prefix(text, ts, k + 1);
        assert(ts.take(k + 1).drop_last() =~= ts.take(k));
    } else {
        assert(ts.take(k) =~= ts);
    }
}

/// The number of elements among `nodes`.
fn count_elements(nodes: &Vec<Node>, Ghost(parent): Ghost<Node>) -> (count: usize)
    requires
        children_match(nodes@, parent),
    ensures
        count == elements_in(parent.tree().children()).len(),
{
    let ghost cs = parent.tree().children();
    let mut count: usize = 0;
    let mut i: usize = 0;
    proof {
        assert(cs.take(0) =~= Seq::<Tree>::empty());
    }
    while i < nodes.len()
        invariant
            i <= nodes.len(),
            count <= i,
            cs == parent.tree().children(),
            children_match(nodes@, parent),
            count == elements_in(cs.take(i as int)).len(),
        decreases nodes.len() - i,
    {
        proof {
            crate::ast::lemma_elements_step(cs, i as int);
        }
        if is_element_type(nodes[i].ty()) {
            count += 1;
        }
        i += 1;
    }
    proof {
        assert(cs.take(i as int) =~= cs);
    }
    count
}

/// Whether the element below `node` can be translated.
pub fn check_element(node: Node) -> (ok: bool)
    requires
        node.wf(),
    ensures
        ok == element_ok(node.file().text_spec(), node.tree()),
    decreases node.rank(), 1nat,
{
    let ty = node.ty();
    if ty.0 == 9 {
        check_literal(node)
    } else if ty.0 == 7 {
        node.has_span()
    } else if ty.0 == 10 {
        proof {
            node.lemma_kind();
        }
        if !node.is_composite() {
            return false;
        }
        let nodes = node.children_vec();
        check_list_shape(&nodes, Ghost(node)) && count_elements(&nodes, Ghost(node)) > 0
            && check_children(&nodes, Ghost(node))
    } else {
        false
    }
}

/// Whether the file can be translated.
pub fn check_program(ast: &AstFile) -> (ok: bool)
    requires
        ast.rst().wf(),
    ensures
        ok == program_ok(ast.rst().text_spec(), ast.rst().tree()),
{
    let root = ast.node();
    if root.ty().0 != 8 {
        return false;
    }
    let ghost cs = root.tree().children();
    let nodes = root.children_vec();
    let mut m: usize = 0;
    while m < nodes.len()
        invariant
            m <= nodes.len(),
            cs == root.tree().children(),
            root.tree() == ast.rst().tree(),
            children_match(nodes@, root),
            forall|j: int|
                0 <= j < m ==> (#[trigger] cs[j]).is_whitespace() || element_type(cs[j].ty()),
        decreases nodes.len() - m,
    {
        let ty = nodes[m].ty();
        if !(ty.0 == 1 || is_element_type(ty)) {
            proof {
                let t = ast.rst().tree();
                assert(!(t.children()[m as int].is_whitespace() || element_type(
                    t.children()[m as int].ty(),
                )));
            }
            return false;
        }
        m += 1;
    }
    check_children(&nodes, Ghost(root))
}

} // verus!
