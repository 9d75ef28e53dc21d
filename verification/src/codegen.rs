//! The text of a program of the target language.

use crate::decimal::{decimal_digits, write_decimal};
use crate::target::{Expr, Expression, ExpressionStatement, Program};
use vstd::prelude::*;
use vstd::string::StringExecFns;

verus! {

/// The text of an expression: a call is its callee and its arguments in
/// parentheses, a string stands in double quotes.
pub open spec fn code_of(e: Expr) -> Seq<char>
    decreases e, 0nat,
{
    match e {
        Expr::Call { callee, arguments } => code_of(*callee) + "("@ + args_code(arguments) + ")"@,
        Expr::Identifier { value } => value,
        Expr::NumberLiteral { value } => decimal_digits(value as nat),
        Expr::StringLiteral { value } => "\""@ + value + "\""@,
    }
}

/// The texts of the arguments of a call, with a comma and a space between
/// one and the next.
pub open spec fn args_code(args: Seq<Expr>) -> Seq<char>
    decreases args, 1nat,
{
    if args.len() == 0 {
        Seq::empty()
    } else if args.len() == 1 {
        code_of(args[0])
    } else {
        args_code(args.drop_last()) + ", "@ + code_of(args.last())
    }
}

/// The text of a sequence of statements: each expression with a semicolon,
/// on a line of its own.
pub open spec fn generated(statements: Seq<Expr>) -> Seq<char>
    decreases statements.len(),
{
    if statements.len() == 0 {
        Seq::empty()
    } else {
        generated(statements.drop_last()) + code_of(statements.last()) + ";"@ + "\n"@
    }
}

/// The text of a program.
pub fn generate(p: &Program) -> (code: String)
    ensures
        code@ == generated(p.statements()),
{
    let mut buff = String::new();
    let mut i: usize = 0;
    let ghost all = p.statements();
    while i < p.body.len()
        invariant
            i <= p.body.len(),
            all == p.statements(),
            buff@ == generated(all.take(i as int)),
        decreases p.body.len() - i,
    {
        let ghost before = buff@;
        generate_stmt(&mut buff, &p.body[i]);
        buff.append("\n");
        proof {
            assert(all.take(i + 1).drop_last() =~= all.take(i as int));
            assert(all.take(i + 1).last() == p.body@[i as int].0.model());
            assert(buff@ =~= generated(all.take(i + 1)));
        }
        i += 1;
    }
    proof {
        assert(all.take(i as int) =~= all);
    }
    buff
}

fn generate_stmt(buff: &mut String, stmt: &ExpressionStatement)
    ensures
        final(buff)@ == old(buff)@ + code_of(stmt.0.model()) + ";"@,
{
    generate_expr(buff, &stmt.0);
    buff.append(";");
}

fn generate_expr(buff: &mut String, expr: &Expression)
    ensures
        final(buff)@ == old(buff)@ + code_of(expr.model()),
    decreases expr,
{
    let ghost start = buff@;
    match expr {
        Expression::Call { calee, arguments } => {
            let ghost args = expr.model()->arguments;
            generate_expr(buff, calee);
            buff.append("(");
            let ghost head = buff@;
            let mut i: usize = 0;
            while i < arguments.len()
                invariant
                    i <= arguments.len(),
                    args == expr.model()->arguments,
                    args.len() == arguments@.len(),
                    forall|k: int| 0 <= k < args.len() ==> args[k] == (#[trigger] arguments@[k]).model(),
                    buff@ == head + args_code(args.take(i as int)),
                    expr is Call,
                    expr->arguments == *arguments,
                decreases arguments.len() - i,
            {
                if i > 0 {
                    buff.append(", ");
                }
                generate_expr(buff, &arguments[i]);
                proof {
                    assert(args.take(i + 1).drop_last() =~= args.take(i as int));
                    assert(args.take(i + 1).last() == args[i as int]);
                    if i == 0 {
                        assert(args.take(1)[0] == args[0]);
                        assert(args_code(args.take(0)) =~= Seq::<char>::empty());
                    }
                    assert(buff@ =~= head + args_code(args.take(i + 1)));
                }
                i += 1;
            }
            buff.append(")");
            proof {
                assert(args.take(i as int) =~= args);
                assert(buff@ =~= start + code_of(expr.model()));
            }
        },
        Expression::Identifier { value } => {
            buff.append(value.as_str());
        },
        Expression::NumberLiteral { value } => {
            write_decimal(buff, *value as u64);
        },
        Expression::StringLiteral { value } => {
            buff.append("\"");
            buff.append(value.as_str());
            buff.append("\"");
            proof {
                assert(buff@ =~= start + code_of(expr.model()));
            }
        },
    }
}

} // verus!
