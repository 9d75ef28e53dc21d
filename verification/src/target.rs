//! The program that a file of the list grammar stands for: calls,
//! identifiers and literals.

use crate::ast::{
    element_type, elements_in, elements_match, list_shape, literal_shape,
    program_shape, AstElement, AstFile, List, ListElement, Literal, LiteralValue, Variable,
};
use crate::ast;
use crate::decimal::decimal_value;
use crate::range::text_of;
use crate::rst::tree::{next_kept, span, spannable, Tree};
use vstd::prelude::*;

verus! {

/// An expression of the target language.
#[allow(inconsistent_fields)]
pub enum Expression {
    Call { calee: Box<Expression>, arguments: Vec<Expression> },
    Identifier { value: String },
    NumberLiteral { value: u32 },
    StringLiteral { value: String },
}

/// An expression that stands as a statement.
pub struct ExpressionStatement(pub Expression);

/// A sequence of statements.
pub struct Program {
    pub body: Vec<ExpressionStatement>,
}

/// The mathematical model of an expression.
#[allow(inconsistent_fields)]
pub enum Expr {
    Call { callee: Box<Expr>, arguments: Seq<Expr> },
    Identifier { value: Seq<char> },
    NumberLiteral { value: u32 },
    StringLiteral { value: Seq<char> },
}

impl Expression {
    /// The model of the expression.
    pub open spec fn model(&self) -> Expr
        decreases self,
    {
        match self {
            Expression::Call { calee, arguments } => Expr::Call {
                callee: Box::new(calee.model()),
                arguments: Seq::new(
                    arguments@.len(),
                    |i: int|
                        if 0 <= i < arguments@.len() {
                            arguments@[i].model()
                        } else {
                            Expr::NumberLiteral { value: 0 }
                        },
                ),
            },
            Expression::Identifier { value } => Expr::Identifier { value: value@ },
            Expression::NumberLiteral { value } => Expr::NumberLiteral { value: *value },
            Expression::StringLiteral { value } => Expr::StringLiteral { value: value@ },
        }
    }
}

impl Program {
    /// The expressions of the statements, in order.
    pub open spec fn statements(&self) -> Seq<Expr> {
        Seq::new(self.body@.len(), |i: int| self.body@[i].0.model())
    }
}

/// Whether an element can be translated: a literal with a value, a
/// variable with a text, or a list with a first element whose elements can
/// be translated.
pub open spec fn element_ok(text: Seq<char>, t: Tree) -> bool
    decreases t, 0nat,
{
    if t.ty().0 == 9 {
        literal_shape(text, t)
    } else if t.ty().0 == 7 {
        spannable(t)
    } else if t.ty().0 == 10 {
        match t {
            Tree::Composite { children, .. } => list_shape(t) && elements_in(children).len() > 0
                && children_ok(text, children),
            Tree::Leaf { .. } => false,
        }
    } else {
        false
    }
}

/// Whether each element among the trees can be translated.
pub open spec fn children_ok(text: Seq<char>, ts: Seq<Tree>) -> bool
    decreases ts, 1nat,
{
    ts.len() == 0 || (children_ok(text, ts.drop_last()) && (element_type(ts.last().ty())
        ==> element_ok(text, ts.last())))
}

/// Whether a file can be translated: its root is a file of the list
/// grammar, and its elements can be translated.
pub open spec fn program_ok(text: Seq<char>, t: Tree) -> bool {
    t.ty().0 == 8 && program_shape(t) && children_ok(text, t.children())
}

/// The expression that a literal stands for.
pub open spec fn literal_expr(text: Seq<char>, t: Tree) -> Expr {
    let cs = t.children();
    let covered = text_of(text, span(t));
    if cs[next_kept(cs, 0)].ty().0 == 6 {
        Expr::StringLiteral { value: covered.subrange(1, covered.len() - 1) }
    } else {
        Expr::NumberLiteral { value: decimal_value(covered) as u32 }
    }
}

/// The expression that an element stands for: a literal for a literal, an
/// identifier for a variable, and for a list the call of its first element
/// with the others as arguments.
pub open spec fn expr_of(text: Seq<char>, t: Tree) -> Expr
    decreases t, 0nat,
{
    if t.ty().0 == 9 {
        literal_expr(text, t)
    } else if t.ty().0 == 10 {
        match t {
            Tree::Composite { children, .. } => {
                let es = exprs_of(text, children);
                Expr::Call { callee: Box::new(es[0]), arguments: es.drop_first() }
            },
            Tree::Leaf { .. } => Expr::Identifier { value: Seq::empty() },
        }
    } else {
        Expr::Identifier { value: text_of(text, span(t)) }
    }
}

/// The expressions that the elements among the trees stand for.
pub open spec fn exprs_of(text: Seq<char>, ts: Seq<Tree>) -> Seq<Expr>
    decreases ts, 1nat,
{
    if ts.len() == 0 {
        Seq::empty()
    } else if element_type(ts.last().ty()) {
        exprs_of(text, ts.drop_last()).push(expr_of(text, ts.last()))
    } else {
        exprs_of(text, ts.drop_last())
    }
}

/// The expressions of the trees are those of the elements among them.
pub proof fn lemma_exprs(text: Seq<char>, ts: Seq<Tree>)
    ensures
        exprs_of(text, ts).len() == elements_in(ts).len(),
        forall|i: int|
            0 <= i < elements_in(ts).len() ==> #[trigger] exprs_of(text, ts)[i] == expr_of(
                text,
                elements_in(ts)[i],
            ),
    decreases ts.len(),
{
    if ts.len() > 0 {
        lemma_exprs(text, ts.drop_last());
    }
}

/// Where the elements among the trees can be translated, each of them can.
pub proof fn lemma_children_ok(text: Seq<char>, ts: Seq<Tree>, i: int)
    requires
        children_ok(text, ts),
        0 <= i < elements_in(ts).len(),
    ensures
        element_ok(text, elements_in(ts)[i]),
    decreases ts.len(),
{
    if element_type(ts.last().ty()) && i == elements_in(ts.drop_last()).len() {
    } else {
        lemma_children_ok(text, ts.drop_last(), i);
    }
}

/// The program that a file stands for.
pub fn translate(ast: &AstFile) -> (program: Program)
    requires
        ast.rst().wf(),
        program_ok(ast.rst().text_spec(), ast.rst().tree()),
    ensures
        program.statements() == exprs_of(ast.rst().text_spec(), ast.rst().tree().children()),
{
    translate_program(ast.root())
}

fn translate_program(program: ast::Program) -> (target: Program)
    requires
        program.node.wf(),
        program_ok(program.node.file().text_spec(), program.node.tree()),
    ensures
        target.statements() == exprs_of(
            program.node.file().text_spec(),
            program.node.tree().children(),
        ),
{
    let ghost text = program.node.file().text_spec();
    let ghost cs = program.node.tree().children();
    let elements = program.elements();
    let mut body: Vec<ExpressionStatement> = Vec::new();
    let mut i: usize = 0;
    proof {
        lemma_exprs(text, cs);
    }
    while i < elements.len()
        invariant
            i <= elements.len(),
            elements_match(elements@, program.node, elements_in(cs)),
            children_ok(text, cs),
            text == program.node.file().text_spec(),
            body@.len() == i,
            forall|k: int| 0 <= k < i ==> (#[trigger] body@[k]).0.model() == expr_of(text, elements_in(cs)[k]),
        decreases elements.len() - i,
    {
        proof {
            lemma_children_ok(text, cs, i as int);
        }
        let expression = translate_element(elements[i]);
        body.push(ExpressionStatement(expression));
        i += 1;
    }
    let target = Program { body };
    proof {
        assert(target.statements() =~= exprs_of(text, cs));
    }
    target
}

fn translate_element(element: ListElement) -> (expression: Expression)
    requires
        element.wf(),
        element_ok(element.inner().file().text_spec(), element.inner().tree()),
    ensures
        expression.model() == expr_of(element.inner().file().text_spec(), element.inner().tree()),
    decreases element.inner().rank(), 1nat,
{
    match element {
        ListElement::List(call) => translate_call(call),
        ListElement::Literal(lit) => translate_literal(lit),
        ListElement::Variable(var) => translate_identifier(var),
    }
}

fn translate_call(element: List) -> (expression: Expression)
    requires
        element.node.wf(),
        element.node.tree().ty().0 == 10,
        element_ok(element.node.file().text_spec(), element.node.tree()),
    ensures
        expression.model() == expr_of(element.node.file().text_spec(), element.node.tree()),
    decreases element.node.rank(), 0nat,
{
    let ghost text = element.node.file().text_spec();
    let ghost t = element.node.tree();
    let ghost cs = t.children();
    let args = element.elements();
    proof {
        lemma_exprs(text, cs);
        lemma_children_ok(text, cs, 0);
    }
    let callee = translate_element(args[0]);
    let mut arguments: Vec<Expression> = Vec::new();
    let mut i: usize = 1;
    while i < args.len()
        invariant
            1 <= i <= args.len(),
            elements_match(args@, element.node, elements_in(cs)),
            children_ok(text, cs),
            text == element.node.file().text_spec(),
            arguments@.len() == i - 1,
            forall|k: int|
                0 <= k < i - 1 ==> (#[trigger] arguments@[k]).model() == expr_of(
                    text,
                    elements_in(cs)[k + 1],
                ),
        decreases args.len() - i,
    {
        proof {
            lemma_children_ok(text, cs, i as int);
        }
        let argument = translate_element(args[i]);
        arguments.push(argument);
        i += 1;
    }
    let expression = Expression::Call { calee: Box::new(callee), arguments };
    proof {
        let es = exprs_of(text, cs);
        assert(expression.model()->arguments =~= es.drop_first());
        assert(*expression.model()->callee == es[0]);
    }
    expression
}

fn translate_literal(element: Literal) -> (expression: Expression)
    requires
        element.wf(),
        element.node.tree().ty().0 == 9,
    ensures
        expression.model() == expr_of(element.node.file().text_spec(), element.node.tree()),
{
    match element.value() {
        LiteralValue::Int(value) => Expression::NumberLiteral { value },
        LiteralValue::String(value) => Expression::StringLiteral { value: value.to_owned() },
    }
}

fn translate_identifier(element: Variable) -> (expression: Expression)
    requires
        element.node.wf(),
        element.node.tree().ty().0 == 7,
        spannable(element.node.tree()),
    ensures
        expression.model() == expr_of(element.node.file().text_spec(), element.node.tree()),
{
    Expression::Identifier { value: element.node().text().to_owned() }
}

} // verus!
