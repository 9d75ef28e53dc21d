//! An indented rendering of a program of the target language, one field on
//! each line.

use crate::chars::{debug_quote, debug_quoted};
use crate::decimal::{decimal_digits, write_decimal};
use crate::target::{Expr, Expression, Program};
use vstd::prelude::*;
use vstd::string::StringExecFns;

verus! {

/// The rendering of an expression whose first line is indented already:
/// the name of its kind, and its fields in braces, each on a line that is
/// indented by four spaces more than `pad`.
pub open spec fn pretty_expr(e: Expr, pad: Seq<char>) -> Seq<char>
    decreases e, 0nat,
{
    let inner = pad + "    "@;
    match e {
        Expr::Call { callee, arguments } => "Call {\n"@ + inner + "calee: "@ + pretty_expr(
            *callee,
            inner,
        ) + ",\n"@ + inner + "arguments: "@ + pretty_list(arguments, inner) + "\n"@ + pad + "}"@,
        Expr::Identifier { value } => "Identifier {\n"@ + inner + "value: "@ + debug_quoted(value)
            + "\n"@ + pad + "}"@,
        Expr::NumberLiteral { value } => "NumberLiteral {\n"@ + inner + "value: "@
            + decimal_digits(value as nat) + "\n"@ + pad + "}"@,
        Expr::StringLiteral { value } => "StringLiteral {\n"@ + inner + "value: "@ + debug_quoted(
            value,
        ) + "\n"@ + pad + "}"@,
    }
}

/// The rendering of a list of expressions: brackets around the items, each
/// on lines of its own, or `[]` where there is none.
pub open spec fn pretty_list(items: Seq<Expr>, pad: Seq<char>) -> Seq<char>
    decreases items, 2nat,
{
    if items.len() == 0 {
        "[]"@
    } else {
        "[\n"@ + pretty_items(items, pad + "    "@) + "\n"@ + pad + "]"@
    }
}

/// The renderings of the items, each indented by `pad`, with a comma
/// behind each but the last.
pub open spec fn pretty_items(items: Seq<Expr>, pad: Seq<char>) -> Seq<char>
    decreases items, 1nat,
{
    if items.len() == 0 {
        Seq::empty()
    } else if items.len() == 1 {
        pad + pretty_expr(items[0], pad)
    } else {
        pretty_items(items.drop_last(), pad) + ",\n"@ + pad + pretty_expr(items.last(), pad)
    }
}

/// The rendering of a statement whose first line is indented already.
pub open spec fn pretty_statement(e: Expr, pad: Seq<char>) -> Seq<char> {
    "ExpressionStatement(\n"@ + (pad + "    "@) + pretty_expr(e, pad + "    "@) + "\n"@ + pad
        + ")"@
}

/// The renderings of the statements, each indented by `pad`, with a comma
/// behind each but the last.
pub open spec fn pretty_statements(items: Seq<Expr>, pad: Seq<char>) -> Seq<char>
    decreases items.len(),
{
    if items.len() == 0 {
        Seq::empty()
    } else if items.len() == 1 {
        pad + pretty_statement(items[0], pad)
    } else {
        pretty_statements(items.drop_last(), pad) + ",\n"@ + pad + pretty_statement(
            items.last(),
            pad,
        )
    }
}

/// The rendering of a program.
pub open spec fn pretty_program(statements: Seq<Expr>) -> Seq<char> {
    "Program {\n"@ + "    "@ + "body: "@ + (if statements.len() == 0 {
        "[]"@
    } else {
        "[\n"@ + pretty_statements(statements, "    "@ + "    "@) + "\n"@ + "    "@ + "]"@
    }) + "\n}"@
}

/// `pad` and four spaces more.
fn deeper(pad: &str) -> (inner: String)
    ensures
        inner@ == pad@ + "    "@,
{
    let mut inner = pad.to_owned();
    inner.append("    ");
    inner
}

fn write_expr(buff: &mut String, expr: &Expression, pad: &str)
    ensures
        final(buff)@ == old(buff)@ + pretty_expr(expr.model(), pad@),
    decreases expr,
{
    let ghost start = buff@;
    let inner = deeper(pad);
    match expr {
        Expression::Call { calee, arguments } => {
            buff.append("Call {\n");
            buff.append(inner.as_str());
            buff.append("calee: ");
            write_expr(buff, calee, inner.as_str());
            let ghost callee = *expr.model()->callee;
            let ghost first = "Call {\n"@ + inner@ + "calee: "@ + pretty_expr(callee, inner@);
            proof {
                assert(buff@ =~= start + first);
            }
            buff.append(",\n");
            buff.append(inner.as_str());
            buff.append("arguments: ");
            let ghost second = first + ",\n"@ + inner@ + "arguments: "@;
            proof {
                assert(buff@ =~= start + second);
            }
            let ghost head = buff@;
            let ghost args = expr.model()->arguments;
            if arguments.len() == 0 {
                buff.append("[]");
                proof {
                    assert(buff@ =~= head + pretty_list(args, inner@));
                }
            } else {
                let item_pad = deeper(inner.as_str());
                buff.append("[\n");
                let ghost open = buff@;
                let mut i: usize = 0;
                while i < arguments.len()
                    invariant
                        i <= arguments.len(),
                        args == expr.model()->arguments,
                        args.len() == arguments@.len(),
                        forall|k: int|
                            0 <= k < args.len() ==> args[k] == (#[trigger] arguments@[k]).model(),
                        buff@ == open + pretty_items(args.take(i as int), item_pad@),
                        expr is Call,
                        expr->arguments == *arguments,
                    decreases arguments.len() - i,
                {
                    if i > 0 {
                        buff.append(",\n");
                    }
                    buff.append(item_pad.as_str());
                    write_expr(buff, &arguments[i], item_pad.as_str());
                    proof {
                        assert(args.take(i + 1).drop_last() =~= args.take(i as int));
                        assert(args.take(i + 1).last() == args[i as int]);
                        if i == 0 {
                            assert(args.take(1)[0] == args[0]);
                            assert(pretty_items(args.take(0), item_pad@) =~= Seq::<char>::empty());
                        }
                        assert(buff@ =~= open + pretty_items(args.take(i + 1), item_pad@));
                    }
                    i += 1;
                }
                buff.append("\n");
                buff.append(inner.as_str());
                buff.append("]");
                proof {
                    assert(args.take(i as int) =~= args);
                    assert(buff@ =~= head + pretty_list(args, inner@));
                }
            }
            let ghost third = second + pretty_list(args, inner@);
            proof {
                assert(buff@ =~= head + pretty_list(args, inner@));
                assert(buff@ =~= start + third);
            }
            buff.append("\n");
            buff.append(pad);
            buff.append("}");
            proof {
                let whole = third + "\n"@ + pad@ + "}"@;
                assert(buff@ =~= start + whole);
                assert(whole =~= pretty_expr(expr.model(), pad@));
            }
        },
        Expression::Identifier { value } => {
            buff.append("Identifier {\n");
            buff.append(inner.as_str());
            buff.append("value: ");
            let quoted = debug_quote(value.as_str());
            buff.append(quoted.as_str());
            buff.append("\n");
            buff.append(pad);
            buff.append("}");
            proof {
                assert(buff@ =~= start + pretty_expr(expr.model(), pad@));
            }
        },
        Expression::NumberLiteral { value } => {
            buff.append("NumberLiteral {\n");
            buff.append(inner.as_str());
            buff.append("value: ");
            write_decimal(buff, *value as u64);
            buff.append("\n");
            buff.append(pad);
            buff.append("}");
            proof {
                assert(buff@ =~= start + pretty_expr(expr.model(), pad@));
            }
        },
        Expression::StringLiteral { value } => {
            buff.append("StringLiteral {\n");
            buff.append(inner.as_str());
            buff.append("value: ");
            let quoted = debug_quote(value.as_str());
            buff.append(quoted.as_str());
            buff.append("\n");
            buff.append(pad);
            buff.append("}");
            proof {
                assert(buff@ =~= start + pretty_expr(expr.model(), pad@));
            }
        },
    }
}

fn write_statement(buff: &mut String, expr: &Expression, pad: &str)
    ensures
        final(buff)@ == old(buff)@ + pretty_statement(expr.model(), pad@),
{
    let ghost start = buff@;
    let inner = deeper(pad);
    buff.append("ExpressionStatement(\n");
    buff.append(inner.as_str());
    write_expr(buff, expr, inner.as_str());
    buff.append("\n");
    buff.append(pad);
    buff.append(")");
    proof {
        assert(buff@ =~= start + pretty_statement(expr.model(), pad@));
    }
}

impl Program {
    /// The indented rendering of the program.
    pub fn pretty(&self) -> (text: String)
        ensures
            text@ == pretty_program(self.statements()),
    {
        let ghost all = self.statements();
        let mut buff = String::new();
        buff.append("Program {\n");
        buff.append("    ");
        buff.append("body: ");
        let ghost head = buff@;
        if self.body.len() == 0 {
            buff.append("[]");
        } else {
            let pad = deeper("    ");
            buff.append("[\n");
            let ghost open = buff@;
            let mut i: usize = 0;
            while i < self.body.len()
                invariant
                    i <= self.body.len(),
                    all == self.statements(),
                    pad@ == "    "@ + "    "@,
                    buff@ == open + pretty_statements(all.take(i as int), pad@),
                decreases self.body.len() - i,
            {
                if i > 0 {
                    buff.append(",\n");
                }
                buff.append(pad.as_str());
                write_statement(&mut buff, &self.body[i].0, pad.as_str());
                proof {
                    assert(all.take(i + 1).drop_last() =~= all.take(i as int));
                    assert(all.take(i + 1).last() == all[i as int]);
                    if i == 0 {
                        assert(all.take(1)[0] == all[0]);
                        assert(pretty_statements(all.take(0), pad@) =~= Seq::<char>::empty());
                    }
                    assert(buff@ =~= open + pretty_statements(all.take(i + 1), pad@));
                }
                i += 1;
            }
            buff.append("\n");
            buff.append("    ");
            buff.append("]");
            proof {
                assert(all.take(i as int) =~= all);
            }
        }
        buff.append("\n}");
        proof {
            assert(buff@ =~= pretty_program(all));
        }
        buff
    }
}

} // verus!
