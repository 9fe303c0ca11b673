//! Printing syntax trees back as tokens, and the law that parsing the printed
//! tokens gives the tree back.
//!
//! Every binary operation and every assignment is printed in parentheses, so
//! that no precedence or associativity question arises.
use vstd::prelude::*;
use crate::ast::{BinaryOp, SExpr, SFunction, SStmt};
use crate::lexer::SToken;
use crate::parser::{
    add_rest_spec, add_spec, args_spec, assign_spec, cmp_rest_spec, cmp_spec, eq_rest_spec, eq_spec,
    factor_spec, mul_rest_spec, mul_spec, tok, unary_spec, opt_spec, expr_semi_spec, if_rest_spec, stmt_spec,
    block_spec, block_rest_spec, params_spec, function_spec, function_tail_spec, program_spec, parse_spec,
    decl_names,
};

verus! {

/// The token of a binary operator.
pub open spec fn op_token(op: BinaryOp) -> SToken {
    match op {
        BinaryOp::Add => SToken::Plus,
        BinaryOp::Sub => SToken::Minus,
        BinaryOp::Mul => SToken::Mult,
        BinaryOp::Div => SToken::Div,
        BinaryOp::Less => SToken::Lt,
        BinaryOp::LessEqual => SToken::Leq,
        BinaryOp::Equal => SToken::Eq,
        BinaryOp::NotEqual => SToken::Neq,
    }
}

/// The tokens of an expression.
pub open spec fn print_expr(e: SExpr) -> Seq<SToken>
    decreases e, 1int,
{
    match e {
        SExpr::Number(n) => seq![SToken::Num(n)],
        SExpr::Variable(name) => seq![SToken::Id(name)],
        SExpr::Assign { name, value } => seq![SToken::ParL, SToken::Id(name), SToken::Assign] + print_expr(*value)
            + seq![SToken::ParR],
        SExpr::Binary { op, lhs, rhs } => seq![SToken::ParL] + print_expr(*lhs) + seq![op_token(op)] + print_expr(*rhs)
            + seq![SToken::ParR],
        SExpr::Call { name, args } => seq![SToken::Id(name), SToken::ParL] + print_args(args) + seq![SToken::ParR],
        SExpr::Addr(operand) => seq![SToken::Amp] + print_expr(*operand),
        SExpr::Deref(operand) => seq![SToken::Mult] + print_expr(*operand),
    }
}

/// The tokens of call arguments, separated by commas.
pub open spec fn print_args(args: Seq<SExpr>) -> Seq<SToken>
    decreases args, 0int,
{
    if args.len() == 0 {
        seq![]
    } else if args.len() == 1 {
        print_expr(args[0])
    } else {
        print_expr(args[0]) + seq![SToken::Comma] + print_args(args.subrange(1, args.len() as int))
    }
}

/// `r` stands in `t` from position `pos` on.
pub open spec fn occurs_at(t: Seq<SToken>, pos: int, r: Seq<SToken>) -> bool {
    &&& 0 <= pos
    &&& pos + r.len() <= t.len()
    &&& t.subrange(pos, pos + r.len()) == r
}

proof fn lemma_occurs_part(t: Seq<SToken>, pos: int, r: Seq<SToken>, k: int, m: int)
    requires
        occurs_at(t, pos, r),
        0 <= k <= m <= r.len(),
    ensures
        occurs_at(t, pos + k, r.subrange(k, m)),
{
    assert(t.subrange(pos + k, pos + m) =~= r.subrange(k, m)) by {
        assert forall|i: int| 0 <= i < m - k implies t.subrange(pos + k, pos + m)[i] == r.subrange(k, m)[i] by {
            assert(t.subrange(pos, pos + r.len())[k + i] == t[pos + k + i]);
        }
    }
}

proof fn lemma_occurs_tok(t: Seq<SToken>, pos: int, r: Seq<SToken>, i: int)
    requires
        occurs_at(t, pos, r),
        0 <= i < r.len(),
    ensures
        tok(t, pos + i) == Some(r[i]),
{
    assert(t.subrange(pos, pos + r.len())[i] == t[pos + i]);
}

/// A token after which a printed expression ends.
pub open spec fn ends_expr(o: Option<SToken>) -> bool {
    o == Some(SToken::ParR) || o == Some(SToken::Comma) || o == Some(SToken::Semi)
}

/// The first token of a printed expression: never one that starts a statement
/// of another kind, and never a delimiter.
proof fn lemma_print_expr_first(e: SExpr)
    ensures
        print_expr(e).len() >= 1,
        ({
            let f = print_expr(e)[0];
            f is Num || f is Id || f == SToken::ParL || f == SToken::Amp || f == SToken::Mult
        }),
        e is Variable <==> print_expr(e).len() == 1 && print_expr(e)[0] is Id,
        print_expr(e)[0] is Id && print_expr(e).len() > 1 ==> print_expr(e)[1] == SToken::ParL,
{
}

/// A unary expression followed by a token that ends every level of the
/// expression grammar parses to itself at every level.
proof fn lemma_levels(t: Seq<SToken>, pos: int, e: SExpr, q: int)
    requires
        unary_spec(t, pos) == Ok::<(SExpr, int), Seq<char>>((e, q)),
        pos <= q <= t.len(),
        ends_expr(tok(t, q)),
    ensures
        mul_spec(t, pos) == Ok::<(SExpr, int), Seq<char>>((e, q)),
        add_spec(t, pos) == Ok::<(SExpr, int), Seq<char>>((e, q)),
        cmp_spec(t, pos) == Ok::<(SExpr, int), Seq<char>>((e, q)),
        eq_spec(t, pos) == Ok::<(SExpr, int), Seq<char>>((e, q)),
        assign_spec(t, pos) == Ok::<(SExpr, int), Seq<char>>((e, q)),
{
    assert(mul_rest_spec(t, e, q) == Ok::<(SExpr, int), Seq<char>>((e, q)));
    assert(add_rest_spec(t, e, q) == Ok::<(SExpr, int), Seq<char>>((e, q)));
    assert(!crate::parser::is_cmp_token(tok(t, q)));
    assert(cmp_rest_spec(t, e, q) == Ok::<(SExpr, int), Seq<char>>((e, q)));
    assert(eq_rest_spec(t, e, q) == Ok::<(SExpr, int), Seq<char>>((e, q)));
}

/// `( name = value )`: the target parses as a variable and the whole as an
/// assignment.
proof fn lemma_assign_target(t: Seq<SToken>, pos: int, name: Seq<char>, value: SExpr, q: int)
    requires
        tok(t, pos + 1) == Some(SToken::Id(name)),
        tok(t, pos + 2) == Some(SToken::Assign),
        assign_spec(t, pos + 3) == Ok::<(SExpr, int), Seq<char>>((value, q)),
        0 <= pos,
        pos + 3 <= q <= t.len(),
    ensures
        assign_spec(t, pos + 1) == Ok::<(SExpr, int), Seq<char>>((SExpr::Assign { name, value: Box::new(value) }, q)),
{
    let x = SExpr::Variable(name);
    assert(factor_spec(t, pos + 1) == Ok::<(SExpr, int), Seq<char>>((x, pos + 2)));
    assert(unary_spec(t, pos + 1) == Ok::<(SExpr, int), Seq<char>>((x, pos + 2)));
    assert(mul_rest_spec(t, x, pos + 2) == Ok::<(SExpr, int), Seq<char>>((x, pos + 2)));
    assert(mul_spec(t, pos + 1) == Ok::<(SExpr, int), Seq<char>>((x, pos + 2)));
    assert(add_rest_spec(t, x, pos + 2) == Ok::<(SExpr, int), Seq<char>>((x, pos + 2)));
    assert(add_spec(t, pos + 1) == Ok::<(SExpr, int), Seq<char>>((x, pos + 2)));
    assert(!crate::parser::is_cmp_token(tok(t, pos + 2)));
    assert(cmp_rest_spec(t, x, pos + 2) == Ok::<(SExpr, int), Seq<char>>((x, pos + 2)));
    assert(cmp_spec(t, pos + 1) == Ok::<(SExpr, int), Seq<char>>((x, pos + 2)));
    assert(eq_rest_spec(t, x, pos + 2) == Ok::<(SExpr, int), Seq<char>>((x, pos + 2)));
    assert(eq_spec(t, pos + 1) == Ok::<(SExpr, int), Seq<char>>((x, pos + 2)));
}

/// `( lhs op rhs )` with both operands parsed at the unary level: the inside
/// parses as the binary operation, whatever the level of `op`.
#[verifier::spinoff_prover]
#[verifier::rlimit(60)]
proof fn lemma_binary_levels(t: Seq<SToken>, pos: int, op: BinaryOp, l: SExpr, r: SExpr, q1: int, q2: int)
    requires
        unary_spec(t, pos + 1) == Ok::<(SExpr, int), Seq<char>>((l, q1)),
        unary_spec(t, q1 + 1) == Ok::<(SExpr, int), Seq<char>>((r, q2)),
        tok(t, q1) == Some(op_token(op)),
        tok(t, q2) == Some(SToken::ParR),
        0 <= pos,
        pos + 1 <= q1 < q2 <= t.len(),
    ensures
        assign_spec(t, pos + 1) == Ok::<(SExpr, int), Seq<char>>((SExpr::Binary { op, lhs: Box::new(l), rhs: Box::new(r) }, q2)),
{
    let x = SExpr::Binary { op, lhs: Box::new(l), rhs: Box::new(r) };
    lemma_levels(t, q1 + 1, r, q2);
    assert(mul_rest_spec(t, x, q2) == Ok::<(SExpr, int), Seq<char>>((x, q2)));
    assert(add_rest_spec(t, x, q2) == Ok::<(SExpr, int), Seq<char>>((x, q2)));
    assert(!crate::parser::is_cmp_token(tok(t, q2)));
    assert(cmp_rest_spec(t, x, q2) == Ok::<(SExpr, int), Seq<char>>((x, q2)));
    assert(eq_rest_spec(t, x, q2) == Ok::<(SExpr, int), Seq<char>>((x, q2)));
    match op {
        BinaryOp::Mul | BinaryOp::Div => {
            assert(mul_rest_spec(t, l, q1) == Ok::<(SExpr, int), Seq<char>>((x, q2)));
            assert(mul_spec(t, pos + 1) == Ok::<(SExpr, int), Seq<char>>((x, q2)));
            assert(add_spec(t, pos + 1) == Ok::<(SExpr, int), Seq<char>>((x, q2)));
            assert(cmp_spec(t, pos + 1) == Ok::<(SExpr, int), Seq<char>>((x, q2)));
            assert(eq_spec(t, pos + 1) == Ok::<(SExpr, int), Seq<char>>((x, q2)));
        },
        BinaryOp::Add | BinaryOp::Sub => {
            assert(mul_rest_spec(t, l, q1) == Ok::<(SExpr, int), Seq<char>>((l, q1)));
            assert(mul_spec(t, pos + 1) == Ok::<(SExpr, int), Seq<char>>((l, q1)));
            assert(add_rest_spec(t, l, q1) == Ok::<(SExpr, int), Seq<char>>((x, q2)));
            assert(add_spec(t, pos + 1) == Ok::<(SExpr, int), Seq<char>>((x, q2)));
            assert(cmp_spec(t, pos + 1) == Ok::<(SExpr, int), Seq<char>>((x, q2)));
            assert(eq_spec(t, pos + 1) == Ok::<(SExpr, int), Seq<char>>((x, q2)));
        },
        BinaryOp::Less | BinaryOp::LessEqual => {
            assert(mul_rest_spec(t, l, q1) == Ok::<(SExpr, int), Seq<char>>((l, q1)));
            assert(mul_spec(t, pos + 1) == Ok::<(SExpr, int), Seq<char>>((l, q1)));
            assert(add_rest_spec(t, l, q1) == Ok::<(SExpr, int), Seq<char>>((l, q1)));
            assert(add_spec(t, pos + 1) == Ok::<(SExpr, int), Seq<char>>((l, q1)));
            assert(crate::parser::is_cmp_token(tok(t, q1)));
            assert(crate::parser::comparison_spec(tok(t, q1), l, r) == x);
            assert(cmp_rest_spec(t, l, q1) == Ok::<(SExpr, int), Seq<char>>((x, q2)));
            assert(cmp_spec(t, pos + 1) == Ok::<(SExpr, int), Seq<char>>((x, q2)));
            assert(eq_spec(t, pos + 1) == Ok::<(SExpr, int), Seq<char>>((x, q2)));
        },
        BinaryOp::Equal | BinaryOp::NotEqual => {
            assert(mul_rest_spec(t, l, q1) == Ok::<(SExpr, int), Seq<char>>((l, q1)));
            assert(mul_spec(t, pos + 1) == Ok::<(SExpr, int), Seq<char>>((l, q1)));
            assert(add_rest_spec(t, l, q1) == Ok::<(SExpr, int), Seq<char>>((l, q1)));
            assert(add_spec(t, pos + 1) == Ok::<(SExpr, int), Seq<char>>((l, q1)));
            assert(!crate::parser::is_cmp_token(tok(t, q1)));
            assert(cmp_rest_spec(t, l, q1) == Ok::<(SExpr, int), Seq<char>>((l, q1)));
            assert(cmp_spec(t, pos + 1) == Ok::<(SExpr, int), Seq<char>>((l, q1)));
            assert(eq_rest_spec(t, l, q1) == Ok::<(SExpr, int), Seq<char>>((x, q2)));
            assert(eq_spec(t, pos + 1) == Ok::<(SExpr, int), Seq<char>>((x, q2)));
        },
    }
}

/// Where the parts of a printed binary operation stand.
proof fn lemma_binary_layout(t: Seq<SToken>, pos: int, op: BinaryOp, l: SExpr, r: SExpr)
    requires
        occurs_at(t, pos, print_expr(SExpr::Binary { op, lhs: Box::new(l), rhs: Box::new(r) })),
    ensures
        tok(t, pos) == Some(SToken::ParL),
        occurs_at(t, pos + 1, print_expr(l)),
        tok(t, pos + 1 + print_expr(l).len()) == Some(op_token(op)),
        occurs_at(t, pos + 2 + print_expr(l).len(), print_expr(r)),
        tok(t, pos + 2 + print_expr(l).len() + print_expr(r).len()) == Some(SToken::ParR),
        print_expr(SExpr::Binary { op, lhs: Box::new(l), rhs: Box::new(r) }).len() == 3 + print_expr(l).len() + print_expr(r).len(),
{
    let x = print_expr(SExpr::Binary { op, lhs: Box::new(l), rhs: Box::new(r) });
    let a = print_expr(l);
    let b = print_expr(r);
    lemma_occurs_tok(t, pos, x, 0);
    lemma_occurs_part(t, pos, x, 1, 1int + a.len());
    assert(x.subrange(1, 1int + a.len()) =~= a);
    lemma_occurs_tok(t, pos, x, 1int + a.len());
    lemma_occurs_part(t, pos, x, 2int + a.len(), 2int + a.len() + b.len());
    assert(x.subrange(2int + a.len(), 2int + a.len() + b.len()) =~= b);
    lemma_occurs_tok(t, pos, x, 2int + a.len() + b.len());
}

/// Where the parts of a printed assignment stand.
proof fn lemma_assign_layout(t: Seq<SToken>, pos: int, name: Seq<char>, v: SExpr)
    requires
        occurs_at(t, pos, print_expr(SExpr::Assign { name, value: Box::new(v) })),
    ensures
        tok(t, pos) == Some(SToken::ParL),
        tok(t, pos + 1) == Some(SToken::Id(name)),
        tok(t, pos + 2) == Some(SToken::Assign),
        occurs_at(t, pos + 3, print_expr(v)),
        tok(t, pos + 3 + print_expr(v).len()) == Some(SToken::ParR),
        print_expr(SExpr::Assign { name, value: Box::new(v) }).len() == 4 + print_expr(v).len(),
{
    let x = print_expr(SExpr::Assign { name, value: Box::new(v) });
    let a = print_expr(v);
    lemma_occurs_tok(t, pos, x, 0);
    lemma_occurs_tok(t, pos, x, 1);
    lemma_occurs_tok(t, pos, x, 2);
    lemma_occurs_part(t, pos, x, 3, 3int + a.len());
    assert(x.subrange(3, 3int + a.len()) =~= a);
    lemma_occurs_tok(t, pos, x, 3int + a.len());
}

/// Where the parts of a printed call stand.
proof fn lemma_call_layout(t: Seq<SToken>, pos: int, name: Seq<char>, args: Seq<SExpr>)
    requires
        occurs_at(t, pos, print_expr(SExpr::Call { name, args })),
    ensures
        tok(t, pos) == Some(SToken::Id(name)),
        tok(t, pos + 1) == Some(SToken::ParL),
        occurs_at(t, pos + 2, print_args(args)),
        tok(t, pos + 2 + print_args(args).len()) == Some(SToken::ParR),
        print_expr(SExpr::Call { name, args }).len() == 3 + print_args(args).len(),
        args.len() > 0 ==> tok(t, pos + 2) != Some(SToken::ParR),
{
    let x = print_expr(SExpr::Call { name, args });
    let a = print_args(args);
    lemma_occurs_tok(t, pos, x, 0);
    lemma_occurs_tok(t, pos, x, 1);
    lemma_occurs_part(t, pos, x, 2, 2int + a.len());
    assert(x.subrange(2, 2int + a.len()) =~= a);
    lemma_occurs_tok(t, pos, x, 2int + a.len());
    if args.len() > 0 {
        lemma_print_args_first(args);
        lemma_print_expr_first(args[0]);
        lemma_occurs_tok(t, pos, x, 2);
    }
}

/// Where the operand of a printed `&` or `*` stands.
proof fn lemma_prefix_layout(t: Seq<SToken>, pos: int, first: SToken, o: SExpr)
    requires
        occurs_at(t, pos, seq![first] + print_expr(o)),
    ensures
        tok(t, pos) == Some(first),
        occurs_at(t, pos + 1, print_expr(o)),
{
    let x = seq![first] + print_expr(o);
    lemma_occurs_tok(t, pos, x, 0);
    lemma_occurs_part(t, pos, x, 1, 1int + print_expr(o).len());
    assert(x.subrange(1, 1int + print_expr(o).len()) =~= print_expr(o));
}

/// A printed expression parses back at the unary level, unless it is directly
/// followed by `(` (which would turn a variable into a call).
#[verifier::spinoff_prover]
#[verifier::rlimit(60)]
proof fn lemma_unary_print(t: Seq<SToken>, pos: int, e: SExpr)
    requires
        occurs_at(t, pos, print_expr(e)),
        tok(t, pos + print_expr(e).len()) != Some(SToken::ParL),
    ensures
        unary_spec(t, pos) == Ok::<(SExpr, int), Seq<char>>((e, pos + print_expr(e).len())),
    decreases e, 0int,
{
    match e {
        SExpr::Number(n) => {
            lemma_occurs_tok(t, pos, print_expr(e), 0);
            assert(tok(t, pos) == Some(SToken::Num(n)));
            assert(factor_spec(t, pos) == Ok::<(SExpr, int), Seq<char>>((e, pos + 1)));
        },
        SExpr::Variable(name) => {
            lemma_occurs_tok(t, pos, print_expr(e), 0);
        },
        SExpr::Assign { name, value } => {
            lemma_assign_layout(t, pos, name, *value);
            lemma_assign_print(t, pos + 3, *value);
            lemma_assign_target(t, pos, name, *value, pos + 3 + print_expr(*value).len());
            lemma_unary_paren(t, pos, e, pos + 3 + print_expr(*value).len());
        },
        SExpr::Binary { op, lhs, rhs } => {
            lemma_binary_layout(t, pos, op, *lhs, *rhs);
            let q1 = pos + 1 + print_expr(*lhs).len();
            let q2 = q1 + 1 + print_expr(*rhs).len();
            lemma_unary_print(t, pos + 1, *lhs);
            lemma_unary_print(t, q1 + 1, *rhs);
            lemma_binary_levels(t, pos, op, *lhs, *rhs, q1, q2);
            lemma_unary_paren(t, pos, e, q2);
        },
        SExpr::Call { name, args } => {
            lemma_call_layout(t, pos, name, args);
            if args.len() > 0 {
                lemma_args_print(t, pos + 2, args, seq![]);
                assert(Seq::<SExpr>::empty() + args =~= args);
            }
        },
        SExpr::Addr(operand) => {
            lemma_prefix_layout(t, pos, SToken::Amp, *operand);
            lemma_unary_print(t, pos + 1, *operand);
        },
        SExpr::Deref(operand) => {
            lemma_prefix_layout(t, pos, SToken::Mult, *operand);
            lemma_unary_print(t, pos + 1, *operand);
        },
    }
}

/// `( x )` with the inside parsed as `e` parses as `e` at the unary level.
proof fn lemma_unary_paren(t: Seq<SToken>, pos: int, e: SExpr, q: int)
    requires
        tok(t, pos) == Some(SToken::ParL),
        assign_spec(t, pos + 1) == Ok::<(SExpr, int), Seq<char>>((e, q)),
        tok(t, q) == Some(SToken::ParR),
    ensures
        unary_spec(t, pos) == Ok::<(SExpr, int), Seq<char>>((e, q + 1)),
{
    assert(factor_spec(t, pos) == Ok::<(SExpr, int), Seq<char>>((e, q + 1)));
}

/// The first token of printed arguments is that of the first argument.
proof fn lemma_print_args_first(args: Seq<SExpr>)
    requires
        args.len() > 0,
    ensures
        print_args(args).len() >= 1,
        print_args(args)[0] == print_expr(args[0])[0],
{
    lemma_print_expr_first(args[0]);
}

/// A printed expression followed by `)`, `,` or `;` parses back as a whole
/// expression.
proof fn lemma_assign_print(t: Seq<SToken>, pos: int, e: SExpr)
    requires
        occurs_at(t, pos, print_expr(e)),
        ends_expr(tok(t, pos + print_expr(e).len())),
    ensures
        assign_spec(t, pos) == Ok::<(SExpr, int), Seq<char>>((e, pos + print_expr(e).len())),
    decreases e, 1int,
{
    lemma_unary_print(t, pos, e);
    lemma_levels(t, pos, e, pos + print_expr(e).len());
}

/// Printed arguments followed by `)` parse back as the arguments of a call.
proof fn lemma_args_print(t: Seq<SToken>, q: int, args: Seq<SExpr>, acc: Seq<SExpr>)
    requires
        args.len() > 0,
        occurs_at(t, q, print_args(args)),
        tok(t, q + print_args(args).len()) == Some(SToken::ParR),
    ensures
        args_spec(t, q, acc) == Ok::<(Seq<SExpr>, int), Seq<char>>((acc + args, q + print_args(args).len() + 1)),
    decreases args, 2int,
{
    let r = print_args(args);
    let a0 = print_expr(args[0]);
    if args.len() == 1 {
        lemma_assign_print(t, q, args[0]);
        assert(acc.push(args[0]) =~= acc + args);
    } else {
        let rest = args.subrange(1, args.len() as int);
        let rr = print_args(rest);
        lemma_occurs_part(t, q, r, 0, a0.len() as int);
        assert(r.subrange(0, a0.len() as int) =~= a0);
        lemma_occurs_tok(t, q, r, a0.len() as int);
        lemma_occurs_part(t, q, r, a0.len() as int + 1, r.len() as int);
        assert(r.subrange(a0.len() as int + 1, r.len() as int) =~= rr);
        lemma_assign_print(t, q, args[0]);
        lemma_args_print(t, q + a0.len() + 1, rest, acc.push(args[0]));
        assert(acc.push(args[0]) + rest =~= acc + args);
    }
}

/// The tokens of an optional expression: nothing for none.
pub open spec fn print_opt(e: Option<SExpr>) -> Seq<SToken> {
    match e {
        Some(x) => print_expr(x),
        None => seq![],
    }
}

/// The tokens of a statement. Declarations print as `type name ;`.
pub open spec fn print_stmt(s: SStmt) -> Seq<SToken>
    decreases s, 0int,
{
    match s {
        SStmt::Expr(e) => print_expr(e) + seq![SToken::Semi],
        SStmt::Return(e) => seq![SToken::Return] + print_expr(e) + seq![SToken::Semi],
        SStmt::Block(b) => seq![SToken::BraceL] + print_stmts(b) + seq![SToken::BraceR],
        SStmt::If { condition, then_branch, else_branch } => match else_branch {
            Some(e) => seq![SToken::If, SToken::ParL] + print_expr(condition) + seq![SToken::ParR]
                + print_stmt(*then_branch) + seq![SToken::Else] + print_stmt(*e),
            None => seq![SToken::If, SToken::ParL] + print_expr(condition) + seq![SToken::ParR] + print_stmt(
                *then_branch,
            ),
        },
        SStmt::While { condition, body } => seq![SToken::While, SToken::ParL] + print_expr(condition) + seq![SToken::ParR]
            + print_stmt(*body),
        SStmt::For { init, condition, update, body } => seq![SToken::For, SToken::ParL] + print_opt(init) + seq![SToken::Semi]
            + print_opt(condition) + seq![SToken::Semi] + print_opt(update) + seq![SToken::ParR] + print_stmt(*body),
        SStmt::Decl { var_type, var_name } => seq![SToken::Id(var_type), SToken::Id(var_name), SToken::Semi],
    }
}

/// The tokens of a sequence of statements.
pub open spec fn print_stmts(b: Seq<SStmt>) -> Seq<SToken>
    decreases b, 1int,
{
    if b.len() == 0 {
        seq![]
    } else {
        print_stmt(b[0]) + print_stmts(b.subrange(1, b.len() as int))
    }
}

/// Whether the printed statement ends with an `if` that has no `else`, so that
/// an `else` right after it would be taken as that `if`'s.
pub open spec fn open_if(s: SStmt) -> bool
    decreases s,
{
    match s {
        SStmt::If { else_branch, .. } => match else_branch {
            Some(e) => open_if(*e),
            None => true,
        },
        SStmt::While { body, .. } => open_if(*body),
        SStmt::For { body, .. } => open_if(*body),
        _ => false,
    }
}

/// No `if` with an `else` has a then-branch that ends with an `if` without
/// one: the trees whose printing reads back the same.
pub open spec fn no_dangling_else(s: SStmt) -> bool
    decreases s, 0int,
{
    match s {
        SStmt::Block(b) => stmts_no_dangling_else(b),
        SStmt::If { then_branch, else_branch, .. } => no_dangling_else(*then_branch) && match else_branch {
            Some(e) => !open_if(*then_branch) && no_dangling_else(*e),
            None => true,
        },
        SStmt::While { body, .. } => no_dangling_else(*body),
        SStmt::For { body, .. } => no_dangling_else(*body),
        _ => true,
    }
}

/// No statement of the sequence has a dangling `else`.
pub open spec fn stmts_no_dangling_else(b: Seq<SStmt>) -> bool
    decreases b, 1int,
{
    if b.len() == 0 {
        true
    } else {
        no_dangling_else(b[0]) && stmts_no_dangling_else(b.subrange(1, b.len() as int))
    }
}

proof fn lemma_occurs_split(t: Seq<SToken>, pos: int, a: Seq<SToken>, b: Seq<SToken>)
    requires
        occurs_at(t, pos, a + b),
    ensures
        occurs_at(t, pos, a),
        occurs_at(t, pos + a.len(), b),
{
    lemma_occurs_part(t, pos, a + b, 0, a.len() as int);
    assert((a + b).subrange(0, a.len() as int) =~= a);
    lemma_occurs_part(t, pos, a + b, a.len() as int, (a + b).len() as int);
    assert((a + b).subrange(a.len() as int, (a + b).len() as int) =~= b);
}

proof fn lemma_occurs_one(t: Seq<SToken>, pos: int, x: SToken)
    requires
        occurs_at(t, pos, seq![x]),
    ensures
        tok(t, pos) == Some(x),
{
    lemma_occurs_tok(t, pos, seq![x], 0);
}

/// The first token of a printed statement is neither `else` nor `}`.
proof fn lemma_print_stmt_first(s: SStmt)
    ensures
        print_stmt(s).len() >= 1,
        print_stmt(s)[0] != SToken::Else,
        print_stmt(s)[0] != SToken::BraceR,
{
    if let SStmt::Expr(e) = s {
        lemma_print_expr_first(e);
    }
}

/// A printed optional expression followed by its delimiter parses back.
proof fn lemma_opt_print(t: Seq<SToken>, pos: int, o: Option<SExpr>, delim: SToken)
    requires
        occurs_at(t, pos, print_opt(o)),
        tok(t, pos + print_opt(o).len()) == Some(delim),
        delim == SToken::Semi || delim == SToken::ParR,
    ensures
        opt_spec(t, pos, delim) == Ok::<(Option<SExpr>, int), Seq<char>>((o, pos + print_opt(o).len() + 1)),
{
    if let Some(x) = o {
        lemma_print_expr_first(x);
        lemma_occurs_tok(t, pos, print_expr(x), 0);
        lemma_assign_print(t, pos, x);
    }
}

/// The token at `pos` can start an expression.
pub open spec fn starts_expr(o: Option<SToken>) -> bool {
    match o {
        Some(SToken::Num(_)) | Some(SToken::Id(_)) | Some(SToken::ParL) | Some(SToken::Amp) | Some(SToken::Mult) => true,
        _ => false,
    }
}

proof fn lemma_stmt_expr_concl(t: Seq<SToken>, pos: int, e: SExpr, q: int)
    requires
        starts_expr(tok(t, pos)),
        tok(t, pos) is Some && tok(t, pos)->0 is Id ==> tok(t, pos + 1) == Some(SToken::Semi) || tok(t, pos + 1) == Some(SToken::ParL),
        assign_spec(t, pos) == Ok::<(SExpr, int), Seq<char>>((e, q)),
        tok(t, q) == Some(SToken::Semi),
    ensures
        stmt_spec(t, pos) == Ok::<(SStmt, int), Seq<char>>((SStmt::Expr(e), q + 1)),
{
    assert(decl_names(t, pos) is None);
    assert(expr_semi_spec(t, pos) == Ok::<(SExpr, int), Seq<char>>((e, q + 1)));
}

proof fn lemma_stmt_return_concl(t: Seq<SToken>, pos: int, e: SExpr, q: int)
    requires
        tok(t, pos) == Some(SToken::Return),
        assign_spec(t, pos + 1) == Ok::<(SExpr, int), Seq<char>>((e, q)),
        tok(t, q) == Some(SToken::Semi),
    ensures
        stmt_spec(t, pos) == Ok::<(SStmt, int), Seq<char>>((SStmt::Return(e), q + 1)),
{
    assert(expr_semi_spec(t, pos + 1) == Ok::<(SExpr, int), Seq<char>>((e, q + 1)));
}

proof fn lemma_stmt_block_concl(t: Seq<SToken>, pos: int, b: Seq<SStmt>, q: int)
    requires
        tok(t, pos) == Some(SToken::BraceL),
        block_rest_spec(t, pos + 1, seq![]) == Ok::<(Seq<SStmt>, int), Seq<char>>((b, q)),
    ensures
        stmt_spec(t, pos) == Ok::<(SStmt, int), Seq<char>>((SStmt::Block(b), q)),
{
    assert(block_spec(t, pos) == Ok::<(Seq<SStmt>, int), Seq<char>>((b, q)));
}

proof fn lemma_stmt_if_concl(t: Seq<SToken>, pos: int, c: SExpr, p: int, th: SStmt, p1: int, el: Option<(SStmt, int)>)
    requires
        0 <= pos,
        tok(t, pos) == Some(SToken::If),
        tok(t, pos + 1) == Some(SToken::ParL),
        assign_spec(t, pos + 2) == Ok::<(SExpr, int), Seq<char>>((c, p)),
        pos + 2 <= p,
        tok(t, p) == Some(SToken::ParR),
        p + 1 < p1 <= t.len(),
        stmt_spec(t, p + 1) == Ok::<(SStmt, int), Seq<char>>((th, p1)),
        match el {
            None => tok(t, p1) != Some(SToken::Else),
            Some((e, p2)) => tok(t, p1) == Some(SToken::Else) && stmt_spec(t, p1 + 1) == Ok::<(SStmt, int), Seq<char>>((e, p2)),
        },
    ensures
        stmt_spec(t, pos) == Ok::<(SStmt, int), Seq<char>>(match el {
            None => (SStmt::If { condition: c, then_branch: Box::new(th), else_branch: None }, p1),
            Some((e, p2)) => (SStmt::If { condition: c, then_branch: Box::new(th), else_branch: Some(Box::new(e)) }, p2),
        }),
{
    match el {
        None => {
            assert(if_rest_spec(t, pos, c, p + 1) == Ok::<(SStmt, int), Seq<char>>(
                (SStmt::If { condition: c, then_branch: Box::new(th), else_branch: None }, p1),
            ));
        },
        Some((e, p2)) => {
            assert(if_rest_spec(t, pos, c, p + 1) == Ok::<(SStmt, int), Seq<char>>(
                (SStmt::If { condition: c, then_branch: Box::new(th), else_branch: Some(Box::new(e)) }, p2),
            ));
        },
    }
}

proof fn lemma_stmt_while_concl(t: Seq<SToken>, pos: int, c: SExpr, p: int, body: SStmt, p1: int)
    requires
        0 <= pos,
        tok(t, pos) == Some(SToken::While),
        tok(t, pos + 1) == Some(SToken::ParL),
        assign_spec(t, pos + 2) == Ok::<(SExpr, int), Seq<char>>((c, p)),
        pos + 2 <= p,
        tok(t, p) == Some(SToken::ParR),
        stmt_spec(t, p + 1) == Ok::<(SStmt, int), Seq<char>>((body, p1)),
    ensures
        stmt_spec(t, pos) == Ok::<(SStmt, int), Seq<char>>((SStmt::While { condition: c, body: Box::new(body) }, p1)),
{
}

proof fn lemma_stmt_for_concl(
    t: Seq<SToken>,
    pos: int,
    i: Option<SExpr>,
    p1: int,
    c: Option<SExpr>,
    p2: int,
    u: Option<SExpr>,
    p3: int,
    body: SStmt,
    p4: int,
)
    requires
        0 <= pos,
        tok(t, pos) == Some(SToken::For),
        tok(t, pos + 1) == Some(SToken::ParL),
        opt_spec(t, pos + 2, SToken::Semi) == Ok::<(Option<SExpr>, int), Seq<char>>((i, p1)),
        opt_spec(t, p1, SToken::Semi) == Ok::<(Option<SExpr>, int), Seq<char>>((c, p2)),
        opt_spec(t, p2, SToken::ParR) == Ok::<(Option<SExpr>, int), Seq<char>>((u, p3)),
        pos < p3 <= t.len(),
        stmt_spec(t, p3) == Ok::<(SStmt, int), Seq<char>>((body, p4)),
    ensures
        stmt_spec(t, pos) == Ok::<(SStmt, int), Seq<char>>(
            (SStmt::For { init: i, condition: c, update: u, body: Box::new(body) }, p4),
        ),
{
}

/// A printed statement parses back, provided it has no dangling `else` and,
/// if it ends with an `if` without `else`, no `else` follows it.
#[verifier::spinoff_prover]
#[verifier::rlimit(60)]
proof fn lemma_stmt_print(t: Seq<SToken>, pos: int, s: SStmt)
    requires
        occurs_at(t, pos, print_stmt(s)),
        no_dangling_else(s),
        open_if(s) ==> tok(t, pos + print_stmt(s).len()) != Some(SToken::Else),
    ensures
        stmt_spec(t, pos) == Ok::<(SStmt, int), Seq<char>>((s, pos + print_stmt(s).len())),
    decreases s, 0int,
{
    match s {
        SStmt::Expr(e) => {
            let pe = print_expr(e);
            lemma_occurs_split(t, pos, pe, seq![SToken::Semi]);
            lemma_occurs_one(t, pos + pe.len(), SToken::Semi);
            lemma_print_expr_first(e);
            lemma_occurs_tok(t, pos, pe, 0);
            if pe.len() > 1 {
                lemma_occurs_tok(t, pos, pe, 1);
            }
            lemma_assign_print(t, pos, e);
            lemma_stmt_expr_concl(t, pos, e, pos + pe.len());
        },
        SStmt::Return(e) => {
            let pe = print_expr(e);
            lemma_occurs_split(t, pos, seq![SToken::Return] + pe, seq![SToken::Semi]);
            lemma_occurs_split(t, pos, seq![SToken::Return], pe);
            lemma_occurs_one(t, pos, SToken::Return);
            lemma_occurs_one(t, pos + 1 + pe.len(), SToken::Semi);
            lemma_assign_print(t, pos + 1, e);
            lemma_stmt_return_concl(t, pos, e, pos + 1 + pe.len());
        },
        SStmt::Block(b) => {
            let pb = print_stmts(b);
            lemma_occurs_split(t, pos, seq![SToken::BraceL] + pb, seq![SToken::BraceR]);
            lemma_occurs_split(t, pos, seq![SToken::BraceL], pb);
            lemma_occurs_one(t, pos, SToken::BraceL);
            lemma_occurs_one(t, pos + 1 + pb.len(), SToken::BraceR);
            lemma_block_rest_print(t, pos + 1, b, seq![]);
            assert(Seq::<SStmt>::empty() + b =~= b);
            lemma_stmt_block_concl(t, pos, b, pos + 2 + pb.len());
        },
        SStmt::If { condition, then_branch, else_branch } => {
            let head = seq![SToken::If, SToken::ParL];
            let pc = print_expr(condition);
            let pt = print_stmt(*then_branch);
            let p = pos + 2 + pc.len();
            let p1 = p + 1 + pt.len();
            match else_branch {
                Some(e) => {
                    let pel = print_stmt(*e);
                    lemma_occurs_split(t, pos, head + pc + seq![SToken::ParR] + pt + seq![SToken::Else], pel);
                    lemma_occurs_split(t, pos, head + pc + seq![SToken::ParR] + pt, seq![SToken::Else]);
                    lemma_occurs_split(t, pos, head + pc + seq![SToken::ParR], pt);
                    lemma_occurs_split(t, pos, head + pc, seq![SToken::ParR]);
                    lemma_occurs_split(t, pos, head, pc);
                    lemma_occurs_tok(t, pos, head, 0);
                    lemma_occurs_tok(t, pos, head, 1);
                    lemma_occurs_one(t, p, SToken::ParR);
                    lemma_occurs_one(t, p1, SToken::Else);
                    lemma_assign_print(t, pos + 2, condition);
                    lemma_print_stmt_first(*then_branch);
                    lemma_stmt_print(t, p + 1, *then_branch);
                    lemma_stmt_print(t, p1 + 1, *e);
                    lemma_stmt_if_concl(t, pos, condition, p, *then_branch, p1, Some((*e, p1 + 1 + pel.len())));
                    assert(s == (SStmt::If { condition, then_branch: Box::new(*then_branch), else_branch: Some(Box::new(*e)) }));
                },
                None => {
                    lemma_occurs_split(t, pos, head + pc + seq![SToken::ParR], pt);
                    lemma_occurs_split(t, pos, head + pc, seq![SToken::ParR]);
                    lemma_occurs_split(t, pos, head, pc);
                    lemma_occurs_tok(t, pos, head, 0);
                    lemma_occurs_tok(t, pos, head, 1);
                    lemma_occurs_one(t, p, SToken::ParR);
                    lemma_assign_print(t, pos + 2, condition);
                    lemma_print_stmt_first(*then_branch);
                    lemma_stmt_print(t, p + 1, *then_branch);
                    lemma_stmt_if_concl(t, pos, condition, p, *then_branch, p1, None);
                    assert(s == (SStmt::If { condition, then_branch: Box::new(*then_branch), else_branch: None }));
                },
            }
        },
        SStmt::While { condition, body } => {
            let head = seq![SToken::While, SToken::ParL];
            let pc = print_expr(condition);
            let p = pos + 2 + pc.len();
            lemma_occurs_split(t, pos, head + pc + seq![SToken::ParR], print_stmt(*body));
            lemma_occurs_split(t, pos, head + pc, seq![SToken::ParR]);
            lemma_occurs_split(t, pos, head, pc);
            lemma_occurs_tok(t, pos, head, 0);
            lemma_occurs_tok(t, pos, head, 1);
            lemma_occurs_one(t, p, SToken::ParR);
            lemma_assign_print(t, pos + 2, condition);
            lemma_stmt_print(t, p + 1, *body);
            lemma_stmt_while_concl(t, pos, condition, p, *body, p + 1 + print_stmt(*body).len());
            assert(s == (SStmt::While { condition, body: Box::new(*body) }));
        },
        SStmt::For { init, condition, update, body } => {
            let head = seq![SToken::For, SToken::ParL];
            let pi = print_opt(init);
            let pc = print_opt(condition);
            let pu = print_opt(update);
            let semi = seq![SToken::Semi];
            let p1 = pos + 2 + pi.len();
            let p2 = p1 + 1 + pc.len();
            let p3 = p2 + 1 + pu.len();
            lemma_occurs_split(t, pos, head + pi + semi + pc + semi + pu + seq![SToken::ParR], print_stmt(*body));
            lemma_occurs_split(t, pos, head + pi + semi + pc + semi + pu, seq![SToken::ParR]);
            lemma_occurs_split(t, pos, head + pi + semi + pc + semi, pu);
            lemma_occurs_split(t, pos, head + pi + semi + pc, semi);
            lemma_occurs_split(t, pos, head + pi + semi, pc);
            lemma_occurs_split(t, pos, head + pi, semi);
            lemma_occurs_split(t, pos, head, pi);
            lemma_occurs_tok(t, pos, head, 0);
            lemma_occurs_tok(t, pos, head, 1);
            lemma_occurs_one(t, p1, SToken::Semi);
            lemma_occurs_one(t, p2, SToken::Semi);
            lemma_occurs_one(t, p3, SToken::ParR);
            lemma_opt_print(t, pos + 2, init, SToken::Semi);
            lemma_opt_print(t, p1 + 1, condition, SToken::Semi);
            lemma_opt_print(t, p2 + 1, update, SToken::ParR);
            lemma_stmt_print(t, p3 + 1, *body);
            lemma_stmt_for_concl(t, pos, init, p1 + 1, condition, p2 + 1, update, p3 + 1, *body,
                p3 + 1 + print_stmt(*body).len());
            assert(s == (SStmt::For { init, condition, update, body: Box::new(*body) }));
        },
        SStmt::Decl { var_type, var_name } => {
            let r = print_stmt(s);
            lemma_occurs_tok(t, pos, r, 0);
            lemma_occurs_tok(t, pos, r, 1);
            lemma_occurs_tok(t, pos, r, 2);
        },
    }
}

/// Printed statements followed by `}` parse back as the rest of a block.
proof fn lemma_block_rest_print(t: Seq<SToken>, q: int, b: Seq<SStmt>, acc: Seq<SStmt>)
    requires
        occurs_at(t, q, print_stmts(b)),
        stmts_no_dangling_else(b),
        tok(t, q + print_stmts(b).len()) == Some(SToken::BraceR),
    ensures
        block_rest_spec(t, q, acc) == Ok::<(Seq<SStmt>, int), Seq<char>>((acc + b, q + print_stmts(b).len() + 1)),
    decreases b, 1int,
{
    if b.len() == 0 {
        assert(acc + b =~= acc);
    } else {
        let rest = b.subrange(1, b.len() as int);
        let p0 = print_stmt(b[0]);
        lemma_occurs_split(t, q, p0, print_stmts(rest));
        lemma_print_stmt_first(b[0]);
        lemma_occurs_tok(t, q, p0, 0);
        if rest.len() > 0 {
            lemma_print_stmt_first(rest[0]);
            lemma_occurs_tok(t, q + p0.len(), print_stmts(rest), 0);
        }
        lemma_stmt_print(t, q, b[0]);
        lemma_block_rest_print(t, q + p0.len(), rest, acc.push(b[0]));
        assert(acc.push(b[0]) + rest =~= acc + b);
    }
}

/// The tokens of a parameter list, separated by commas.
pub open spec fn print_params(ps: Seq<Seq<char>>) -> Seq<SToken>
    decreases ps.len(),
{
    if ps.len() == 0 {
        seq![]
    } else if ps.len() == 1 {
        seq![SToken::Id(ps[0])]
    } else {
        seq![SToken::Id(ps[0]), SToken::Comma] + print_params(ps.subrange(1, ps.len() as int))
    }
}

/// The tokens of a function definition: `name ( params ) { body }`.
pub open spec fn print_function(f: SFunction) -> Seq<SToken> {
    seq![SToken::Id(f.name), SToken::ParL] + print_params(f.params) + seq![SToken::ParR] + print_stmt(SStmt::Block(f.body))
}

/// The tokens of a program.
pub open spec fn print_program(fs: Seq<SFunction>) -> Seq<SToken>
    decreases fs.len(),
{
    if fs.len() == 0 {
        seq![]
    } else {
        print_function(fs[0]) + print_program(fs.subrange(1, fs.len() as int))
    }
}

proof fn lemma_params_print(t: Seq<SToken>, q: int, ps: Seq<Seq<char>>, acc: Seq<Seq<char>>)
    requires
        ps.len() > 0,
        occurs_at(t, q, print_params(ps)),
        tok(t, q + print_params(ps).len()) == Some(SToken::ParR),
    ensures
        params_spec(t, q, acc) == Ok::<(Seq<Seq<char>>, int), Seq<char>>((acc + ps, q + print_params(ps).len() + 1)),
    decreases ps.len(),
{
    let r = print_params(ps);
    lemma_occurs_tok(t, q, r, 0);
    if ps.len() == 1 {
        assert(acc.push(ps[0]) =~= acc + ps);
    } else {
        let rest = ps.subrange(1, ps.len() as int);
        lemma_occurs_tok(t, q, r, 1);
        lemma_occurs_split(t, q, seq![SToken::Id(ps[0]), SToken::Comma], print_params(rest));
        lemma_params_print(t, q + 2, rest, acc.push(ps[0]));
        assert(acc.push(ps[0]) + rest =~= acc + ps);
    }
}

proof fn lemma_function_print(t: Seq<SToken>, pos: int, f: SFunction)
    requires
        occurs_at(t, pos, print_function(f)),
        stmts_no_dangling_else(f.body),
    ensures
        function_spec(t, pos) == Ok::<(SFunction, int), Seq<char>>((f, pos + print_function(f).len())),
{
    let head = seq![SToken::Id(f.name), SToken::ParL];
    let pp = print_params(f.params);
    let pb = print_stmts(f.body);
    let p = pos + 2 + pp.len();
    let blk = print_stmt(SStmt::Block(f.body));
    lemma_occurs_split(t, pos, head + pp + seq![SToken::ParR], blk);
    lemma_occurs_split(t, pos, head + pp, seq![SToken::ParR]);
    lemma_occurs_split(t, pos, head, pp);
    lemma_occurs_tok(t, pos, head, 0);
    lemma_occurs_tok(t, pos, head, 1);
    lemma_occurs_one(t, p, SToken::ParR);
    lemma_occurs_split(t, p + 1, seq![SToken::BraceL] + pb, seq![SToken::BraceR]);
    lemma_occurs_split(t, p + 1, seq![SToken::BraceL], pb);
    lemma_occurs_one(t, p + 1, SToken::BraceL);
    lemma_occurs_one(t, p + 2 + pb.len(), SToken::BraceR);
    lemma_block_rest_print(t, p + 2, f.body, seq![]);
    assert(Seq::<SStmt>::empty() + f.body =~= f.body);
    assert(block_spec(t, p + 1) == Ok::<(Seq<SStmt>, int), Seq<char>>((f.body, p + 3 + pb.len())));
    let params_result = if tok(t, pos + 2) == Some(SToken::ParR) {
        Ok::<(Seq<Seq<char>>, int), Seq<char>>((Seq::<Seq<char>>::empty(), pos + 3))
    } else {
        params_spec(t, pos + 2, seq![])
    };
    if f.params.len() > 0 {
        lemma_occurs_tok(t, pos + 2, pp, 0);
        lemma_params_print(t, pos + 2, f.params, seq![]);
        assert(Seq::<Seq<char>>::empty() + f.params =~= f.params);
    } else {
        assert(f.params =~= Seq::<Seq<char>>::empty());
    }
    assert(params_result == Ok::<(Seq<Seq<char>>, int), Seq<char>>((f.params, p + 1)));
    assert(function_tail_spec(t, f.name, params_result) == Ok::<(SFunction, int), Seq<char>>(
        (SFunction { name: f.name, params: f.params, body: f.body }, p + 3 + pb.len()),
    ));
}

proof fn lemma_program_print(t: Seq<SToken>, pos: int, fs: Seq<SFunction>, acc: Seq<SFunction>)
    requires
        occurs_at(t, pos, print_program(fs)),
        pos + print_program(fs).len() == t.len(),
        forall|i: int| 0 <= i < fs.len() ==> stmts_no_dangling_else(#[trigger] fs[i].body),
    ensures
        program_spec(t, pos, acc) == Ok::<Seq<SFunction>, Seq<char>>(acc + fs),
    decreases fs.len(),
{
    if fs.len() == 0 {
        assert(acc + fs =~= acc);
    } else {
        let rest = fs.subrange(1, fs.len() as int);
        let pf = print_function(fs[0]);
        lemma_occurs_split(t, pos, pf, print_program(rest));
        lemma_function_print(t, pos, fs[0]);
        assert forall|i: int| 0 <= i < rest.len() implies stmts_no_dangling_else(#[trigger] rest[i].body) by {
            assert(rest[i] == fs[i + 1]);
        }
        lemma_program_print(t, pos + pf.len(), rest, acc.push(fs[0]));
        assert(acc.push(fs[0]) + rest =~= acc + fs);
    }
}

/// Parsing a printed program gives the program back, for every program
/// without a dangling `else` (an `if` with an `else` whose then-branch ends
/// with an `if` without one, which reads back with the `else` on the inner
/// `if`).
pub proof fn parse_round_trip(fs: Seq<SFunction>)
    requires
        forall|i: int| 0 <= i < fs.len() ==> stmts_no_dangling_else(#[trigger] fs[i].body),
    ensures
        parse_spec(print_program(fs)) == Ok::<Seq<SFunction>, Seq<char>>(fs),
{
    let t = print_program(fs);
    assert(t.subrange(0, t.len() as int) =~= t);
    lemma_program_print(t, 0, fs, seq![]);
    assert(Seq::<SFunction>::empty() + fs =~= fs);
}

proof fn lemma_stmts_no_dangling_else(b: Seq<SStmt>)
    ensures
        stmts_no_dangling_else(b) <==> forall|i: int| 0 <= i < b.len() ==> no_dangling_else(#[trigger] b[i]),
    decreases b.len(),
{
    if b.len() > 0 {
        let rest = b.subrange(1, b.len() as int);
        lemma_stmts_no_dangling_else(rest);
        if forall|i: int| 0 <= i < b.len() ==> no_dangling_else(#[trigger] b[i]) {
            assert forall|i: int| 0 <= i < rest.len() implies no_dangling_else(#[trigger] rest[i]) by {
                assert(rest[i] == b[i + 1]);
            }
        }
        if stmts_no_dangling_else(b) {
            assert forall|i: int| 0 <= i < b.len() implies no_dangling_else(#[trigger] b[i]) by {
                if i > 0 {
                    assert(b[i] == rest[i - 1]);
                }
            }
        }
    }
}

/// A statement that the parser gives has no dangling `else`, and if it ends
/// with an `if` without `else`, no `else` follows it.
proof fn lemma_parsed_stmt(t: Seq<SToken>, pos: int)
    ensures
        stmt_spec(t, pos) matches Ok((s, p)) ==> no_dangling_else(s) && (open_if(s) ==> tok(t, p) != Some(SToken::Else)),
    decreases t.len() - pos, 2int,
{
    match tok(t, pos) {
        Some(SToken::BraceL) => {
            lemma_parsed_block(t, pos);
            if let Ok((b, p)) = block_spec(t, pos) {
                lemma_stmts_no_dangling_else(b);
            }
        },
        Some(SToken::If) => {
            if tok(t, pos + 1) == Some(SToken::ParL) {
                if let Ok((c, p)) = assign_spec(t, pos + 2) {
                    if tok(t, p) == Some(SToken::ParR) {
                        lemma_parsed_if_rest(t, pos, c, p + 1);
                    }
                }
            }
        },
        Some(SToken::While) => {
            if tok(t, pos + 1) == Some(SToken::ParL) {
                if let Ok((c, p)) = assign_spec(t, pos + 2) {
                    if tok(t, p) == Some(SToken::ParR) && pos <= p {
                        lemma_parsed_stmt(t, p + 1);
                    }
                }
            }
        },
        Some(SToken::For) => {
            if tok(t, pos + 1) == Some(SToken::ParL) {
                if let Ok((i, p1)) = opt_spec(t, pos + 2, SToken::Semi) {
                    if let Ok((c, p2)) = opt_spec(t, p1, SToken::Semi) {
                        if let Ok((u, p3)) = opt_spec(t, p2, SToken::ParR) {
                            if pos < p3 <= t.len() {
                                lemma_parsed_stmt(t, p3);
                            }
                        }
                    }
                }
            }
        },
        _ => {},
    }
}

proof fn lemma_parsed_if_rest(t: Seq<SToken>, pos: int, c: SExpr, q: int)
    ensures
        if_rest_spec(t, pos, c, q) matches Ok((s, p)) ==> no_dangling_else(s) && (open_if(s) ==> tok(t, p) != Some(SToken::Else)),
    decreases t.len() - pos, 1int,
{
    if pos < q <= t.len() {
        lemma_parsed_stmt(t, q);
        if let Ok((th, p)) = stmt_spec(t, q) {
            if tok(t, p) == Some(SToken::Else) && pos < p {
                lemma_parsed_stmt(t, p + 1);
            }
        }
    }
}

proof fn lemma_parsed_block(t: Seq<SToken>, pos: int)
    ensures
        block_spec(t, pos) matches Ok((b, p)) ==> forall|i: int| 0 <= i < b.len() ==> no_dangling_else(#[trigger] b[i]),
    decreases t.len() - pos, 1int,
{
    if tok(t, pos) == Some(SToken::BraceL) {
        lemma_parsed_block_rest(t, pos + 1, seq![]);
    }
}

proof fn lemma_parsed_block_rest(t: Seq<SToken>, q: int, acc: Seq<SStmt>)
    requires
        forall|i: int| 0 <= i < acc.len() ==> no_dangling_else(#[trigger] acc[i]),
    ensures
        block_rest_spec(t, q, acc) matches Ok((b, p)) ==> forall|i: int| 0 <= i < b.len() ==> no_dangling_else(#[trigger] b[i]),
    decreases t.len() - q, 3int,
{
    match tok(t, q) {
        Some(SToken::BraceR) => {},
        None => {},
        Some(_) => {
            lemma_parsed_stmt(t, q);
            if let Ok((s, p)) = stmt_spec(t, q) {
                if q < p <= t.len() {
                    let acc2 = acc.push(s);
                    assert forall|i: int| 0 <= i < acc2.len() implies no_dangling_else(#[trigger] acc2[i]) by {
                        if i < acc.len() {
                            assert(acc2[i] == acc[i]);
                        }
                    }
                    lemma_parsed_block_rest(t, p, acc2);
                }
            }
        },
    }
}

proof fn lemma_parsed_program(t: Seq<SToken>, pos: int, acc: Seq<SFunction>)
    requires
        forall|i: int| 0 <= i < acc.len() ==> stmts_no_dangling_else(#[trigger] acc[i].body),
    ensures
        program_spec(t, pos, acc) matches Ok(fs) ==> forall|i: int| 0 <= i < fs.len() ==> stmts_no_dangling_else(#[trigger] fs[i].body),
    decreases t.len() - pos,
{
    if 0 <= pos < t.len() {
        if let Ok((f, p)) = function_spec(t, pos) {
            if pos < p <= t.len() {
                let name_at = if crate::parser::is_id(tok(t, pos)) && crate::parser::is_id(tok(t, pos + 1)) { pos + 1 } else { pos };
                let params = if tok(t, name_at + 2) == Some(SToken::ParR) {
                    Ok::<(Seq<Seq<char>>, int), Seq<char>>((Seq::<Seq<char>>::empty(), name_at + 3))
                } else {
                    params_spec(t, name_at + 2, seq![])
                };
                if let Ok((ps, q)) = params {
                    lemma_parsed_block(t, q);
                }
                lemma_stmts_no_dangling_else(f.body);
                let acc2 = acc.push(f);
                assert forall|i: int| 0 <= i < acc2.len() implies stmts_no_dangling_else(#[trigger] acc2[i].body) by {
                    if i < acc.len() {
                        assert(acc2[i] == acc[i]);
                    }
                }
                lemma_parsed_program(t, p, acc2);
            }
        }
    }
}

/// Parsing, printing and parsing again gives the same program: every program
/// that the parser gives is printed back to tokens that it reads as the same
/// program.
pub proof fn parse_print_parse(t: Seq<SToken>)
    ensures
        parse_spec(t) matches Ok(fs) ==> parse_spec(print_program(fs)) == Ok::<Seq<SFunction>, Seq<char>>(fs),
{
    lemma_parsed_program(t, 0, seq![]);
    if let Ok(fs) = parse_spec(t) {
        parse_round_trip(fs);
    }
}

} // verus!
