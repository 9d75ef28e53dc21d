//! A small grammar of nested lists: parentheses around identifiers,
//! numbers, strings and lists.

use crate::chars::{
    alphabetic_char, blank_class, decimal_digit, digit_class, is_alphabetic, is_decimal_digit,
    is_whitespace, letter_class, whitespace_char,
};
use crate::node_type::{error_type, whitespace, whitespace_type, NodeType};
use crate::range::byte_len;
use crate::rst::builder::{
    leaf_of, lemma_whitespace_end, token_leaves, whitespace_end, RstBuilder,
};
use crate::rst::tree::Tree;
use crate::rst::node::RstFile;
use crate::token::{
    find_char, lemma_run_end, lemma_run_end_is, lemma_tokens_step, run_end, tokens_by, RawToken,
    TokenBuilder, TokenFile,
};
use vstd::prelude::*;

verus! {

/// The tag of a left parenthesis.
pub open spec fn lparen_type() -> NodeType {
    NodeType(3, "lparen")
}

/// The tag of a right parenthesis.
pub open spec fn rparen_type() -> NodeType {
    NodeType(4, "rparen")
}

/// The tag of a number.
pub open spec fn number_type() -> NodeType {
    NodeType(5, "number")
}

/// The tag of a string in double quotes.
pub open spec fn string_type() -> NodeType {
    NodeType(6, "string")
}

/// The tag of an identifier.
pub open spec fn id_type() -> NodeType {
    NodeType(7, "id")
}

/// The tag of a whole file.
pub open spec fn file_type() -> NodeType {
    NodeType(8, "file")
}

/// The tag of a literal: a node over a number or a string.
pub open spec fn literal_type() -> NodeType {
    NodeType(9, "literal")
}

/// The tag of a list in parentheses.
pub open spec fn list_type() -> NodeType {
    NodeType(10, "list")
}

/// The tag of a left parenthesis.
#[verifier::when_used_as_spec(lparen_type)]
pub fn lparen() -> (ty: NodeType)
    ensures
        ty == lparen_type(),
{
    NodeType(3, "lparen")
}

/// The tag of a right parenthesis.
#[verifier::when_used_as_spec(rparen_type)]
pub fn rparen() -> (ty: NodeType)
    ensures
        ty == rparen_type(),
{
    NodeType(4, "rparen")
}

/// The tag of a number.
#[verifier::when_used_as_spec(number_type)]
pub fn number() -> (ty: NodeType)
    ensures
        ty == number_type(),
{
    NodeType(5, "number")
}

/// The tag of a string in double quotes.
#[verifier::when_used_as_spec(string_type)]
pub fn string() -> (ty: NodeType)
    ensures
        ty == string_type(),
{
    NodeType(6, "string")
}

/// The tag of an identifier.
#[verifier::when_used_as_spec(id_type)]
pub fn id() -> (ty: NodeType)
    ensures
        ty == id_type(),
{
    NodeType(7, "id")
}

/// The tag of a whole file.
#[verifier::when_used_as_spec(file_type)]
pub fn tiny_file() -> (ty: NodeType)
    ensures
        ty == file_type(),
{
    NodeType(8, "file")
}

/// The tag of a literal: a node over a number or a string.
#[verifier::when_used_as_spec(literal_type)]
pub fn literal() -> (ty: NodeType)
    ensures
        ty == literal_type(),
{
    NodeType(9, "literal")
}

/// The tag of a list in parentheses.
#[verifier::when_used_as_spec(list_type)]
pub fn list() -> (ty: NodeType)
    ensures
        ty == list_type(),
{
    NodeType(10, "list")
}

/// The test that accepts everything but a double quote.
pub open spec fn inside_string() -> spec_fn(char) -> bool {
    |c: char| c != '"'
}

/// The tag of the token that begins at `pos`, and where it ends: a
/// parenthesis; the longest run of letters, of whitespace or of digits; a
/// string up to its closing quote, which is an error where it is not
/// closed; or an error of one character.
pub open spec fn token_at(text: Seq<char>, pos: int) -> (NodeType, int) {
    let c = text[pos];
    if c == '(' {
        (lparen_type(), pos + 1)
    } else if c == ')' {
        (rparen_type(), pos + 1)
    } else if alphabetic_char(c) {
        (id_type(), run_end(text, pos + 1, letter_class()))
    } else if whitespace_char(c) {
        (whitespace_type(), run_end(text, pos + 1, blank_class()))
    } else if decimal_digit(c) {
        (number_type(), run_end(text, pos + 1, digit_class()))
    } else if c == '"' {
        let quote = run_end(text, pos + 1, inside_string());
        if quote < text.len() {
            (string_type(), quote + 1)
        } else {
            (error_type(), quote)
        }
    } else {
        (error_type(), pos + 1)
    }
}

/// The rule of the tokens of the list grammar.
pub open spec fn tiny_rule() -> spec_fn(Seq<char>, int) -> (NodeType, int) {
    |text: Seq<char>, pos: int| token_at(text, pos)
}

/// The tokens of the list grammar that `text` is cut into from `pos` on.
pub open spec fn tiny_tokens(text: Seq<char>, pos: int) -> Seq<RawToken> {
    tokens_by(text, pos, tiny_rule())
}

/// Consumes a string that began with the quote just consumed: up to the
/// closing quote, or to the end of the text, where it is an error.
fn string_token(builder: &mut TokenBuilder)
    requires
        old(builder).wf(),
        old(builder).pending_start() < old(builder).pos(),
    ensures
        final(builder).wf(),
        ({
            let quote = run_end(old(builder).text(), old(builder).pos(), inside_string());
            if quote < old(builder).text().len() {
                final(builder).emitted_upto(old(builder), string_type(), quote + 1)
            } else {
                final(builder).emitted_upto(old(builder), error_type(), quote)
            }
        }),
{
    loop
        invariant_except_break
            builder.wf(),
            builder.text() == old(builder).text(),
            builder.emitted() == old(builder).emitted(),
            builder.pending_start() == old(builder).pending_start(),
            builder.pending_start() < builder.pos(),
            0 <= old(builder).pos() <= builder.pos(),
            forall|k: int|
                old(builder).pos() <= k < builder.pos() ==> (#[trigger] builder.text()[k]) != '"',
        ensures
            builder.wf(),
            ({
                let quote = run_end(old(builder).text(), old(builder).pos(), inside_string());
                if quote < old(builder).text().len() {
                    builder.emitted_upto(old(builder), string_type(), quote + 1)
                } else {
                    builder.emitted_upto(old(builder), error_type(), quote)
                }
            }),
        decreases builder.text().len() - builder.pos(),
    {
        let ghost at = builder.pos();
        match builder.peek() {
            Some(c) => {
                builder.bump();
                if c == '"' {
                    proof {
                        lemma_run_end_is(
                            old(builder).text(),
                            old(builder).pos(),
                            at,
                            inside_string(),
                        );
                    }
                    builder.emit(string());
                    break ;
                }
            },
            None => {
                proof {
                    lemma_run_end_is(old(builder).text(), old(builder).pos(), at, inside_string());
                }
                builder.error();
                break ;
            },
        }
    }
}

/// Cuts a text into the tokens of the list grammar: parentheses, runs of
/// letters, of whitespace and of digits, and strings in double quotes.
/// Anything else is an error token of one character.
pub fn tiny_tokenizer(builder: &mut TokenBuilder)
    requires
        old(builder).wf(),
        old(builder).pending_start() == old(builder).pos(),
    ensures
        final(builder).wf(),
        final(builder).text() == old(builder).text(),
        final(builder).is_done(),
        final(builder).emitted() == old(builder).emitted() + tiny_tokens(
            old(builder).text(),
            old(builder).pos(),
        ),
{
    let mut text_tokens: Vec<(NodeType, char)> = Vec::new();
    text_tokens.push((lparen(), '('));
    text_tokens.push((rparen(), ')'));
    let letters = |c: char| -> (yes: bool)
        ensures
            yes == alphabetic_char(c),
    {
        is_alphabetic(c)
    };
    let blanks = |c: char| -> (yes: bool)
        ensures
            yes == whitespace_char(c),
    {
        is_whitespace(c)
    };
    let digits = |c: char| -> (yes: bool)
        ensures
            yes == decimal_digit(c),
    {
        is_decimal_digit(c)
    };
    let ghost text = builder.text();
    let ghost goal = builder.emitted() + tiny_tokens(text, builder.pos());
    loop
        invariant
            builder.wf(),
            builder.text() == text,
            text == old(builder).text(),
            builder.pending_start() == builder.pos(),
            builder.emitted() + tiny_tokens(text, builder.pos()) == goal,
            text_tokens@ == seq![(lparen_type(), '('), (rparen_type(), ')')],
            forall|c: char| call_requires(letters, (c,)),
            forall|c: char| call_requires(blanks, (c,)),
            forall|c: char| call_requires(digits, (c,)),
            forall|c: char, r: bool| call_ensures(letters, (c,), r) ==> r == alphabetic_char(c),
            forall|c: char, r: bool| call_ensures(blanks, (c,), r) ==> r == whitespace_char(c),
            forall|c: char, r: bool| call_ensures(digits, (c,), r) ==> r == decimal_digit(c),
        ensures
            builder.wf(),
            builder.text() == text,
            builder.is_done(),
            builder.emitted() == goal,
        decreases builder.text().len() - builder.pos(),
    {
        let ghost before = *builder;
        let ghost pos = builder.pos();
        proof {
            reveal_with_fuel(find_char, 3);
        }
        if builder.try_text_token(text_tokens.as_slice()) {
            proof {
                lemma_tokens_step(&before, builder, tiny_rule());
            }
            continue ;
        }
        if builder.try_advance_while(id(), &letters) {
            proof {
                lemma_run_end_is(text, pos + 1, builder.pos(), letter_class());
                lemma_tokens_step(&before, builder, tiny_rule());
            }
            continue ;
        }
        if builder.try_advance_while(whitespace(), &blanks) {
            proof {
                lemma_run_end_is(text, pos + 1, builder.pos(), blank_class());
                lemma_tokens_step(&before, builder, tiny_rule());
            }
            continue ;
        }
        if builder.try_advance_while(number(), &digits) {
            proof {
                lemma_run_end_is(text, pos + 1, builder.pos(), digit_class());
                lemma_tokens_step(&before, builder, tiny_rule());
            }
            continue ;
        }
        let c = match builder.peek() {
            Some(c) => c,
            None => {
                break ;
            },
        };
        builder.bump();
        if c == '"' {
            proof {
                lemma_run_end(text, pos + 1, inside_string());
            }
            string_token(builder);
        } else {
            builder.error();
        }
        proof {
            lemma_tokens_step(&before, builder, tiny_rule());
        }
    }
}

/// The element that begins at token `pos`, and the position behind it: a
/// literal node over a number or a string, the leaf of an identifier, or
/// a list from a left parenthesis to the right parenthesis behind its
/// items, which may be missing. Nothing where no element begins.
pub open spec fn element_at(tokens: Seq<RawToken>, pos: int) -> Option<(Tree, int)>
    decreases tokens.len() - pos, 0nat,
{
    if 0 <= pos < tokens.len() {
        let ty = tokens[pos].ty;
        if ty.0 == 5 || ty.0 == 6 {
            Some(
                (Tree::Composite { ty: literal_type(), children: seq![leaf_of(tokens[pos])] }, pos
                    + 1),
            )
        } else if ty.0 == 7 {
            Some((leaf_of(tokens[pos]), pos + 1))
        } else if ty.0 == 3 {
            let (items, end) = list_items(tokens, pos + 1);
            let inner = seq![leaf_of(tokens[pos])] + items;
            if 0 <= end < tokens.len() && tokens[end].ty.0 == 4 {
                Some(
                    (
                        Tree::Composite {
                            ty: list_type(),
                            children: inner.push(leaf_of(tokens[end])),
                        },
                        end + 1,
                    ),
                )
            } else {
                Some((Tree::Composite { ty: list_type(), children: inner }, end))
            }
        } else {
            None
        }
    } else {
        None
    }
}

/// The items of a list from token `pos` on, and the position behind them:
/// elements with the whitespace before and behind each, up to where no
/// element follows.
pub open spec fn list_items(tokens: Seq<RawToken>, pos: int) -> (Seq<Tree>, int)
    decreases tokens.len() - pos, 1nat,
{
    let first = whitespace_end(tokens, pos);
    let blanks = token_leaves(tokens, pos, first);
    if 0 <= pos <= first <= tokens.len() {
        match element_at(tokens, first) {
            None => (blanks, first),
            Some((tree, behind)) => {
                let next = whitespace_end(tokens, behind);
                if pos < next <= tokens.len() {
                    let (rest, end) = list_items(tokens, next);
                    (blanks + seq![tree] + token_leaves(tokens, behind, next) + rest, end)
                } else {
                    (blanks, first)
                }
            },
        }
    } else {
        (blanks, first)
    }
}

/// The elements of a file from token `pos` on, and the position behind
/// them: elements with the whitespace before each, up to where no element
/// follows.
pub open spec fn file_items(tokens: Seq<RawToken>, pos: int) -> (Seq<Tree>, int)
    decreases tokens.len() - pos,
{
    let first = whitespace_end(tokens, pos);
    let blanks = token_leaves(tokens, pos, first);
    if 0 <= pos <= first <= tokens.len() {
        match element_at(tokens, first) {
            None => (blanks, first),
            Some((tree, behind)) => {
                if pos < behind <= tokens.len() {
                    let (rest, end) = file_items(tokens, behind);
                    (blanks + seq![tree] + rest, end)
                } else {
                    (blanks, first)
                }
            },
        }
    } else {
        (blanks, first)
    }
}

/// The tree of a file of the list grammar over `tokens`: the root over the
/// elements and the whitespace around them.
pub open spec fn file_tree(tokens: Seq<RawToken>) -> Tree {
    let (items, end) = file_items(tokens, whitespace_end(tokens, 0));
    Tree::Composite {
        ty: file_type(),
        children: token_leaves(tokens, 0, whitespace_end(tokens, 0)) + items + token_leaves(
            tokens,
            end,
            whitespace_end(tokens, end),
        ),
    }
}

/// An element ends behind where it begins, among the tokens.
pub proof fn lemma_element_at(tokens: Seq<RawToken>, pos: int)
    ensures
        element_at(tokens, pos) matches Some((tree, behind)) ==> 0 <= pos < behind
            <= tokens.len(),
    decreases tokens.len() - pos, 0nat,
{
    if 0 <= pos < tokens.len() && tokens[pos].ty.0 == 3 {
        lemma_list_items(tokens, pos + 1);
    }
}

/// The items of a list end at or behind where they begin, among the
/// tokens.
pub proof fn lemma_list_items(tokens: Seq<RawToken>, pos: int)
    requires
        0 <= pos <= tokens.len(),
    ensures
        pos <= list_items(tokens, pos).1 <= tokens.len(),
    decreases tokens.len() - pos, 1nat,
{
    lemma_whitespace_end(tokens, pos);
    let first = whitespace_end(tokens, pos);
    lemma_element_at(tokens, first);
    match element_at(tokens, first) {
        None => {},
        Some((tree, behind)) => {
            lemma_whitespace_end(tokens, behind);
            let next = whitespace_end(tokens, behind);
            lemma_list_items(tokens, next);
        },
    }
}

/// Parses one element of a list where the next token begins one: a number
/// or a string becomes a literal node, an identifier a leaf, and a left
/// parenthesis opens a list of elements that lasts to the right
/// parenthesis that closes it, or to where no element follows.
fn parse(builder: &mut RstBuilder) -> (progress: bool)
    requires
        old(builder).wf(),
        old(builder).depth() > 0,
        !old(builder).at_whitespace(),
    ensures
        final(builder).wf(),
        final(builder).balanced_since(old(builder)),
        match element_at(old(builder).tokens_spec(), old(builder).pos()) {
            Some((tree, behind)) => progress && final(builder).pos() == behind && final(builder).extends(old(builder), seq![tree]),
            None => !progress && final(builder).pos() == old(builder).pos() && final(builder).extends(old(builder), Seq::empty()),
        },
    decreases old(builder).tokens_spec().len() - old(builder).pos(),
{
    let ghost toks = builder.tokens_spec();
    let ghost pos = builder.pos();
    proof {
        old(builder).lemma_balanced_refl();
        old(builder).lemma_extends_none();
    }
    let ty = match builder.peek() {
        Some(ty) => ty,
        None => {
            return false;
        },
    };
    if ty == number() || ty == string() {
        builder.start(literal());
        let ghost opened = *builder;
        builder.bump();
        let ghost filled = *builder;
        builder.finish(literal());
        proof {
            filled.lemma_extends_balanced(&opened, seq![leaf_of(toks[pos])]);
            builder.lemma_node_balanced(&filled, &opened, old(builder), literal());
            assert(filled.top().children =~= seq![leaf_of(toks[pos])]);
        }
        true
    } else if ty == id() {
        builder.bump();
        proof {
            builder.lemma_extends_balanced(old(builder), seq![leaf_of(toks[pos])]);
        }
        true
    } else if ty == lparen() {
        builder.start(list());
        let ghost opened = *builder;
        builder.bump();
        let ghost paren = seq![leaf_of(toks[pos])];
        let ghost goal = list_items(toks, pos + 1);
        let ghost mut acc: Seq<Tree> = Seq::empty();
        proof {
            builder.lemma_extends_balanced(&opened, paren);
            assert(paren + acc =~= paren);
            assert(acc + goal.0 =~= goal.0);
        }
        loop
            invariant_except_break
                builder.wf(),
                builder.balanced_since(&opened),
                builder.extends(&opened, paren + acc),
                builder.tokens_spec() == toks,
                toks == opened.tokens_spec(),
                toks == old(builder).tokens_spec(),
                pos == old(builder).pos(),
                pos < builder.pos() <= toks.len(),
                acc + list_items(toks, builder.pos()).0 == goal.0,
                list_items(toks, builder.pos()).1 == goal.1,
            ensures
                builder.wf(),
                builder.balanced_since(&opened),
                builder.extends(&opened, paren + goal.0),
                builder.tokens_spec() == toks,
                builder.pos() == goal.1,
                pos < builder.pos() <= toks.len(),
            decreases toks.len() - builder.pos(),
        {
            let ghost a = *builder;
            builder.skip_ws();
            let ghost b = *builder;
            let ghost blanks = token_leaves(toks, a.pos(), b.pos());
            proof {
                lemma_whitespace_end(toks, a.pos());
                b.lemma_extends_balanced(&a, blanks);
                b.lemma_balanced_trans(&a, &opened);
                b.lemma_extends_trans(&a, &opened, paren + acc, blanks);
                lemma_whitespace_end(toks, b.pos());
                lemma_element_at(toks, b.pos());
            }
            let more = parse(builder);
            let ghost c = *builder;
            proof {
                c.lemma_balanced_trans(&b, &opened);
            }
            if !more {
                proof {
                    c.lemma_extends_trans(&b, &opened, paren + acc + blanks, Seq::empty());
                    assert(paren + acc + blanks + Seq::<Tree>::empty() =~= paren + goal.0);
                }
                break ;
            }
            let ghost found = element_at(toks, b.pos())->0;
            let ghost tree = found.0;
            builder.skip_ws();
            let ghost gaps = token_leaves(toks, c.pos(), builder.pos());
            proof {
                lemma_whitespace_end(toks, c.pos());
                builder.lemma_extends_balanced(&c, gaps);
                builder.lemma_balanced_trans(&c, &opened);
                c.lemma_extends_trans(&b, &opened, paren + acc + blanks, seq![tree]);
                builder.lemma_extends_trans(
                    &c,
                    &opened,
                    paren + acc + blanks + seq![tree],
                    gaps,
                );
                let more_acc = acc + blanks + seq![tree] + gaps;
                assert(paren + acc + blanks + seq![tree] + gaps =~= paren + more_acc);
                assert(more_acc + list_items(toks, builder.pos()).0 =~= acc + (blanks
                    + seq![tree] + gaps + list_items(toks, builder.pos()).0));
                acc = more_acc;
            }
        }
        let ghost d = *builder;
        let mut closed = false;
        match builder.peek() {
            Some(next) => {
                if next == rparen() {
                    builder.eat(rparen());
                    closed = true;
                    proof {
                        builder.lemma_extends_balanced(&d, seq![leaf_of(toks[d.pos()])]);
                        builder.lemma_balanced_trans(&d, &opened);
                        builder.lemma_extends_trans(
                            &d,
                            &opened,
                            paren + goal.0,
                            seq![leaf_of(toks[d.pos()])],
                        );
                    }
                }
            },
            None => {},
        }
        let ghost filled = *builder;
        builder.finish(list());
        proof {
            builder.lemma_node_balanced(&filled, &opened, old(builder), list());
            if closed {
                assert(filled.top().children =~= (paren + goal.0).push(leaf_of(toks[d.pos()])));
            } else {
                assert(filled.top().children =~= paren + goal.0);
            }
        }
        true
    } else {
        false
    }
}

/// Parses the elements of a file of the list grammar, with the whitespace
/// before each, up to the first token that begins no element.
pub fn tiny_parser(builder: &mut RstBuilder)
    requires
        old(builder).wf(),
        old(builder).depth() > 0,
    ensures
        final(builder).wf(),
        final(builder).balanced_since(old(builder)),
        final(builder).extends(
            old(builder),
            file_items(old(builder).tokens_spec(), old(builder).pos()).0,
        ),
        final(builder).pos() == file_items(old(builder).tokens_spec(), old(builder).pos()).1,
{
    let ghost toks = builder.tokens_spec();
    let ghost goal = file_items(toks, builder.pos());
    let ghost mut acc: Seq<Tree> = Seq::empty();
    proof {
        old(builder).lemma_balanced_refl();
        old(builder).lemma_extends_none();
        assert(acc + goal.0 =~= goal.0);
    }
    loop
        invariant_except_break
            builder.wf(),
            builder.balanced_since(old(builder)),
            builder.extends(old(builder), acc),
            builder.tokens_spec() == toks,
            toks == old(builder).tokens_spec(),
            acc + file_items(toks, builder.pos()).0 == goal.0,
            file_items(toks, builder.pos()).1 == goal.1,
        ensures
            builder.wf(),
            builder.balanced_since(old(builder)),
            builder.extends(old(builder), goal.0),
            builder.pos() == goal.1,
        decreases toks.len() - builder.pos(),
    {
        let ghost a = *builder;
        builder.skip_ws();
        let ghost b = *builder;
        let ghost blanks = token_leaves(toks, a.pos(), b.pos());
        proof {
            lemma_whitespace_end(toks, a.pos());
            b.lemma_extends_balanced(&a, blanks);
            b.lemma_balanced_trans(&a, old(builder));
            b.lemma_extends_trans(&a, old(builder), acc, blanks);
            lemma_whitespace_end(toks, b.pos());
            lemma_element_at(toks, b.pos());
        }
        let more = parse(builder);
        proof {
            builder.lemma_balanced_trans(&b, old(builder));
        }
        if !more {
            proof {
                builder.lemma_extends_trans(&b, old(builder), acc + blanks, Seq::empty());
                assert(acc + blanks + Seq::<Tree>::empty() =~= goal.0);
            }
            break ;
        }
        proof {
            let found = element_at(toks, b.pos())->0;
            let tree = found.0;
            builder.lemma_extends_trans(&b, old(builder), acc + blanks, seq![tree]);
            let more_acc = acc + blanks + seq![tree];
            assert(more_acc + file_items(toks, builder.pos()).0 =~= acc + (blanks + seq![tree]
                + file_items(toks, builder.pos()).0));
            acc = more_acc;
        }
    }
}

/// The syntax tree of a text of the list grammar.
pub fn parse_tiny(text: String) -> (rst: RstFile)
    requires
        byte_len(text@) <= u32::MAX,
    ensures
        rst.wf(),
        rst.text_spec() == text@,
        rst.tokens_spec() == tiny_tokens(text@, 0),
        rst.tree() == file_tree(tiny_tokens(text@, 0)),
{
    let tokens = TokenFile::new(text, &tiny_tokenizer);
    proof {
        assert(Seq::<RawToken>::empty() + tiny_tokens(text@, 0) =~= tiny_tokens(text@, 0));
    }
    let ghost toks = tokens.tokens_spec();
    let rst = RstFile::new(tokens, tiny_file(), &tiny_parser);
    proof {
        let first = whitespace_end(toks, 0);
        assert(token_leaves(toks, 0, first) + file_items(toks, first).0 + token_leaves(
            toks,
            file_items(toks, first).1,
            whitespace_end(toks, file_items(toks, first).1),
        ) =~= (token_leaves(toks, 0, first) + file_items(toks, first).0) + token_leaves(
            toks,
            file_items(toks, first).1,
            whitespace_end(toks, file_items(toks, first).1),
        ));
    }
    rst
}

} // verus!
