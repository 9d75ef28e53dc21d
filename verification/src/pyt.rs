//! The beginnings of a grammar of assignments and expressions.

use crate::chars::{
    alphabetic_char, blank_class, decimal_digit, digit_class, is_alphabetic, is_decimal_digit,
    is_whitespace, letter_class, whitespace_char,
};
use crate::node_type::{error_type, whitespace, whitespace_type, NodeType};
use crate::rst::builder::{leaf_of, lemma_whitespace_end, whitespace_end, RstBuilder};
use crate::rst::tree::Tree;
use crate::token::{
    find_char, lemma_run_end_is, lemma_tokens_step, run_end, tokens_by, RawToken, TokenBuilder,
};
use vstd::prelude::*;

verus! {

/// The tag of a number.
pub fn number() -> (ty: NodeType)
    ensures
        ty == NodeType(10, "number"),
{
    NodeType(10, "number")
}

/// The tag of an identifier.
pub fn id() -> (ty: NodeType)
    ensures
        ty == NodeType(11, "id"),
{
    NodeType(11, "id")
}

/// The tag of the equals sign.
pub fn eq() -> (ty: NodeType)
    ensures
        ty == NodeType(12, "="),
{
    NodeType(12, "=")
}

/// The tag of the plus sign.
pub fn plus() -> (ty: NodeType)
    ensures
        ty == NodeType(13, "+"),
{
    NodeType(13, "+")
}

/// The tag of the minus sign.
pub fn minus() -> (ty: NodeType)
    ensures
        ty == NodeType(14, "-"),
{
    NodeType(14, "-")
}

/// The tag of the asterisk.
pub fn star() -> (ty: NodeType)
    ensures
        ty == NodeType(15, "*"),
{
    NodeType(15, "*")
}

/// The tag of the slash.
pub fn slash() -> (ty: NodeType)
    ensures
        ty == NodeType(16, "/"),
{
    NodeType(16, "/")
}

/// The tag of a left parenthesis.
pub fn lparen() -> (ty: NodeType)
    ensures
        ty == NodeType(17, "lparen"),
{
    NodeType(17, "lparen")
}

/// The tag of a right parenthesis.
pub fn rparen() -> (ty: NodeType)
    ensures
        ty == NodeType(18, "rparen"),
{
    NodeType(18, "rparen")
}

/// The tag of a literal expression.
pub fn lit_expr() -> (ty: NodeType)
    ensures
        ty == NodeType(19, "lit_expr"),
{
    NodeType(19, "lit_expr")
}

/// The tag of an expression with an operator.
pub fn bin_expr() -> (ty: NodeType)
    ensures
        ty == NodeType(20, "bin_expr"),
{
    NodeType(20, "bin_expr")
}

/// The tag of a call.
pub fn call_expr() -> (ty: NodeType)
    ensures
        ty == NodeType(21, "call_expr"),
{
    NodeType(21, "call_expr")
}

/// The tag of an expression in parentheses.
pub fn paren_expr() -> (ty: NodeType)
    ensures
        ty == NodeType(22, "paren_expr"),
{
    NodeType(22, "paren_expr")
}

/// The tag of an assignment.
pub fn assignment() -> (ty: NodeType)
    ensures
        ty == NodeType(23, "assignment"),
{
    NodeType(23, "assignment")
}

/// The tag of an expression that stands as a statement.
pub fn expr_stmt() -> (ty: NodeType)
    ensures
        ty == NodeType(24, "expr_stmt"),
{
    NodeType(24, "expr_stmt")
}

/// The tag of a whole file.
pub fn file() -> (ty: NodeType)
    ensures
        ty == NodeType(25, "file"),
{
    NodeType(25, "file")
}

/// The tag of the token that begins at `pos`, and where it ends: an
/// operator or a parenthesis; the longest run of letters, of whitespace or
/// of digits; or an error of one character.
pub open spec fn token_at(text: Seq<char>, pos: int) -> (NodeType, int) {
    let c = text[pos];
    if c == '+' {
        (NodeType(13, "+"), pos + 1)
    } else if c == '-' {
        (NodeType(14, "-"), pos + 1)
    } else if c == '*' {
        (NodeType(15, "*"), pos + 1)
    } else if c == '/' {
        (NodeType(16, "/"), pos + 1)
    } else if c == '=' {
        (NodeType(12, "="), pos + 1)
    } else if c == '(' {
        (NodeType(17, "lparen"), pos + 1)
    } else if c == ')' {
        (NodeType(18, "rparen"), pos + 1)
    } else if alphabetic_char(c) {
        (NodeType(11, "id"), run_end(text, pos + 1, letter_class()))
    } else if whitespace_char(c) {
        (whitespace_type(), run_end(text, pos + 1, blank_class()))
    } else if decimal_digit(c) {
        (NodeType(10, "number"), run_end(text, pos + 1, digit_class()))
    } else {
        (error_type(), pos + 1)
    }
}

/// The rule of the tokens of the grammar.
pub open spec fn rule() -> spec_fn(Seq<char>, int) -> (NodeType, int) {
    |text: Seq<char>, pos: int| token_at(text, pos)
}

/// The tokens of the grammar that `text` is cut into from `pos` on.
pub open spec fn tokens_from(text: Seq<char>, pos: int) -> Seq<RawToken> {
    tokens_by(text, pos, rule())
}

/// Cuts a text into the tokens of the grammar: the operators and
/// parentheses, runs of letters, of whitespace and of digits. Anything else
/// is an error token of one character.
pub fn tokenize(builder: &mut TokenBuilder)
    requires
        old(builder).wf(),
        old(builder).pending_start() == old(builder).pos(),
    ensures
        final(builder).wf(),
        final(builder).text() == old(builder).text(),
        final(builder).is_done(),
        final(builder).emitted() == old(builder).emitted() + tokens_from(
            old(builder).text(),
            old(builder).pos(),
        ),
{
    let mut text_tokens: Vec<(NodeType, char)> = Vec::new();
    text_tokens.push((plus(), '+'));
    text_tokens.push((minus(), '-'));
    text_tokens.push((star(), '*'));
    text_tokens.push((slash(), '/'));
    text_tokens.push((eq(), '='));
    text_tokens.push((lparen(), '('));
    text_tokens.push((rparen(), ')'));
    let letters = |c: char| -> (yes: bool)
        ensures
            yes == alphabetic_char(c),
    {
        is_alphabetic(c)
    };
    let blanks = |c: char| -> (yes: bool)
        ensures
            yes == whitespace_char(c),
    {
        is_whitespace(c)
    };
    let digits = |c: char| -> (yes: bool)
        ensures
            yes == decimal_digit(c),
    {
        is_decimal_digit(c)
    };
    let ghost text = builder.text();
    let ghost goal = builder.emitted() + tokens_from(text, builder.pos());
    loop
        invariant
            builder.wf(),
            builder.text() == text,
            text == old(builder).text(),
            builder.pending_start() == builder.pos(),
            builder.emitted() + tokens_from(text, builder.pos()) == goal,
            text_tokens@ == seq![
                (NodeType(13, "+"), '+'),
                (NodeType(14, "-"), '-'),
                (NodeType(15, "*"), '*'),
                (NodeType(16, "/"), '/'),
                (NodeType(12, "="), '='),
                (NodeType(17, "lparen"), '('),
                (NodeType(18, "rparen"), ')'),
            ],
            forall|c: char| call_requires(letters, (c,)),
            forall|c: char| call_requires(blanks, (c,)),
            forall|c: char| call_requires(digits, (c,)),
            forall|c: char, r: bool| call_ensures(letters, (c,), r) ==> r == alphabetic_char(c),
            forall|c: char, r: bool| call_ensures(blanks, (c,), r) ==> r == whitespace_char(c),
            forall|c: char, r: bool| call_ensures(digits, (c,), r) ==> r == decimal_digit(c),
        ensures
            builder.wf(),
            builder.text() == text,
            builder.is_done(),
            builder.emitted() == goal,
        decreases builder.text().len() - builder.pos(),
    {
        let ghost before = *builder;
        let ghost pos = builder.pos();
        proof {
            reveal_with_fuel(find_char, 8);
        }
        if builder.try_text_token(text_tokens.as_slice()) {
            proof {
                lemma_tokens_step(&before, builder, rule());
            }
            continue ;
        }
        if builder.try_advance_while(id(), &letters) {
            proof {
                lemma_run_end_is(text, pos + 1, builder.pos(), letter_class());
                lemma_tokens_step(&before, builder, rule());
            }
            continue ;
        }
        if builder.try_advance_while(whitespace(), &blanks) {
            proof {
                lemma_run_end_is(text, pos + 1, builder.pos(), blank_class());
                lemma_tokens_step(&before, builder, rule());
            }
            continue ;
        }
        if builder.try_advance_while(number(), &digits) {
            proof {
                lemma_run_end_is(text, pos + 1, builder.pos(), digit_class());
                lemma_tokens_step(&before, builder, rule());
            }
            continue ;
        }
        match builder.peek() {
            Some(_) => {
                builder.bump();
                builder.error();
                proof {
                    lemma_tokens_step(&before, builder, rule());
                }
            },
            None => {
                break ;
            },
        }
    }
}

/// Whether token number `pos` exists and has the tag with id `id`.
pub open spec fn is_type(tokens: Seq<RawToken>, pos: int, id: u32) -> bool {
    0 <= pos < tokens.len() && tokens[pos].ty.0 == id
}

/// Whether a statement can be read at `pos`: an identifier that, where an
/// equals sign follows it, has a number behind the sign; or a number.
pub open spec fn stmt_ok(tokens: Seq<RawToken>, pos: int) -> bool {
    if is_type(tokens, pos, 11) {
        let sign = whitespace_end(tokens, pos + 1);
        is_type(tokens, sign, 12) ==> is_type(tokens, sign + 1, 10)
    } else {
        is_type(tokens, pos, 10)
    }
}

/// Whether the statement at `pos` is complete: it is not an identifier
/// without an equals sign.
pub open spec fn stmt_completes(tokens: Seq<RawToken>, pos: int) -> bool {
    !is_type(tokens, pos, 11) || is_type(tokens, whitespace_end(tokens, pos + 1), 12)
}

/// The position behind what is read of the statement at `pos`.
pub open spec fn stmt_end(tokens: Seq<RawToken>, pos: int) -> int {
    if is_type(tokens, pos, 11) {
        let sign = whitespace_end(tokens, pos + 1);
        if is_type(tokens, sign, 12) {
            sign + 2
        } else {
            sign
        }
    } else {
        pos + 1
    }
}

/// Whether statements can be read from `pos` on up to an identifier that
/// no equals sign follows.
pub open spec fn stmts_ok(tokens: Seq<RawToken>, pos: int) -> bool
    decreases tokens.len() - pos,
{
    &&& 0 <= pos < tokens.len()
    &&& stmt_ok(tokens, pos)
    &&& (stmt_completes(tokens, pos) ==> {
        let next = whitespace_end(tokens, stmt_end(tokens, pos));
        if pos < next <= tokens.len() {
            stmts_ok(tokens, next)
        } else {
            false
        }
    })
}

/// The tree of a number as an expression.
pub open spec fn lit_expr_tree(token: RawToken) -> Tree {
    Tree::Composite { ty: NodeType(19, "lit_expr"), children: seq![leaf_of(token)] }
}

/// Reads the number that comes next as a literal expression.
fn parse_expr(builder: &mut RstBuilder) -> (done: bool)
    requires
        old(builder).wf(),
        old(builder).depth() > 0,
        is_type(old(builder).tokens_spec(), old(builder).pos(), 10),
    ensures
        done,
        final(builder).wf(),
        final(builder).pos() == old(builder).pos() + 1,
        final(builder).extends(
            old(builder),
            seq![lit_expr_tree(old(builder).tokens_spec()[old(builder).pos()])],
        ),
        final(builder).balanced_since(old(builder)),
{
    builder.start(lit_expr());
    let ghost opened = *builder;
    builder.eat(number());
    let ghost filled = *builder;
    builder.finish(lit_expr());
    proof {
        filled.lemma_extends_balanced(&opened, seq![leaf_of(opened.tokens_spec()[opened.pos()])]);
        builder.lemma_node_balanced(&filled, &opened, old(builder), NodeType(19, "lit_expr"));
        assert(filled.top().children =~= seq![leaf_of(opened.tokens_spec()[opened.pos()])]);
    }
    true
}

/// Reads one statement: an assignment of a number to an identifier, or a
/// number. Where an identifier has no equals sign behind it, the assignment
/// stays open and the answer is `false`.
fn parse_stmt(builder: &mut RstBuilder) -> (complete: bool)
    requires
        old(builder).wf(),
        old(builder).depth() > 0,
        stmt_ok(old(builder).tokens_spec(), old(builder).pos()),
    ensures
        final(builder).wf(),
        final(builder).tokens_spec() == old(builder).tokens_spec(),
        final(builder).pos() == stmt_end(old(builder).tokens_spec(), old(builder).pos()),
        complete == stmt_completes(old(builder).tokens_spec(), old(builder).pos()),
        complete ==> final(builder).balanced_since(old(builder)),
        !complete ==> final(builder).depth() == old(builder).depth() + 1
            && final(builder).frames().drop_last() == old(builder).frames()
            && final(builder).top().ty == NodeType(23, "assignment"),
{
    let ghost toks = builder.tokens_spec();
    let ghost start = builder.pos();
    let first = builder.peek();
    let at_id = match first {
        Some(ty) => ty == id(),
        None => false,
    };
    if at_id {
        builder.start(assignment());
        let ghost opened = *builder;
        builder.eat(id());
        let ghost a = *builder;
        proof {
            a.lemma_extends_balanced(&opened, seq![leaf_of(toks[start])]);
            lemma_whitespace_end(toks, start + 1);
        }
        builder.skip_ws();
        let ghost b = *builder;
        proof {
            b.lemma_extends_balanced(
                &a,
                crate::rst::builder::token_leaves(toks, a.pos(), b.pos()),
            );
            b.lemma_balanced_trans(&a, &opened);
        }
        let second = builder.peek();
        let at_eq = match second {
            Some(ty) => ty == eq(),
            None => false,
        };
        if at_eq {
            builder.eat(eq());
            let ghost c = *builder;
            proof {
                c.lemma_extends_balanced(&b, seq![leaf_of(toks[b.pos()])]);
                c.lemma_balanced_trans(&b, &opened);
            }
            parse_expr(builder);
            let ghost filled = *builder;
            proof {
                filled.lemma_balanced_trans(&c, &opened);
            }
            builder.finish(assignment());
            proof {
                builder.lemma_node_balanced(
                    &filled,
                    &opened,
                    old(builder),
                    NodeType(23, "assignment"),
                );
            }
            return true;
        } else {
            proof {
                assert(opened.frames().drop_last() =~= old(builder).frames());
            }
            return false;
        }
    }
    builder.start(expr_stmt());
    let ghost opened = *builder;
    parse_expr(builder);
    let ghost filled = *builder;
    builder.finish(expr_stmt());
    proof {
        builder.lemma_node_balanced(&filled, &opened, old(builder), NodeType(24, "expr_stmt"));
    }
    true
}

/// Reads statements, and the whitespace behind each, up to an identifier
/// that no equals sign follows: its assignment stays open.
pub fn parse(builder: &mut RstBuilder)
    requires
        old(builder).wf(),
        old(builder).depth() > 0,
        stmts_ok(old(builder).tokens_spec(), old(builder).pos()),
    ensures
        final(builder).wf(),
        final(builder).tokens_spec() == old(builder).tokens_spec(),
        final(builder).depth() == old(builder).depth() + 1,
        final(builder).frames().drop_last().drop_last() == old(builder).frames().drop_last(),
        final(builder).top().ty == NodeType(23, "assignment"),
{
    proof {
        old(builder).lemma_balanced_refl();
    }
    loop
        invariant_except_break
            builder.wf(),
            builder.balanced_since(old(builder)),
            stmts_ok(builder.tokens_spec(), builder.pos()),
        ensures
            builder.wf(),
            builder.tokens_spec() == old(builder).tokens_spec(),
            builder.depth() == old(builder).depth() + 1,
            builder.frames().drop_last().drop_last() == old(builder).frames().drop_last(),
            builder.top().ty == NodeType(23, "assignment"),
        decreases builder.tokens_spec().len() - builder.pos(),
    {
        let ghost a = *builder;
        let ghost toks = builder.tokens_spec();
        if !parse_stmt(builder) {
            proof {
                assert(builder.frames().drop_last().drop_last() =~= a.frames().drop_last());
            }
            break ;
        }
        let ghost b = *builder;
        proof {
            b.lemma_balanced_trans(&a, old(builder));
            lemma_whitespace_end(toks, b.pos());
        }
        builder.skip_ws();
        proof {
            builder.lemma_extends_balanced(
                &b,
                crate::rst::builder::token_leaves(toks, b.pos(), builder.pos()),
            );
            builder.lemma_balanced_trans(&b, old(builder));
        }
    }
}

} // verus!
