//! The parser: a recursive-descent parser from tokens to the syntax tree.
//!
//! The grammar, with `ident` written for an identifier token:
//! ```text
//! prog   = func*
//! func   = ident? ident "(" params? ")" block
//! params = ident? ident ("," ident? ident)*
//! block  = "{" stmt* "}"
//! stmt   = "return" expr ";" | expr ";" | block | ident ident ";"
//!        | "if" "(" expr ")" stmt ("else" stmt)?
//!        | "while" "(" expr ")" stmt
//!        | "for" "(" expr? ";" expr? ";" expr? ")" stmt
//! expr   = assign
//! assign = eq ("=" assign)?
//! eq     = cmp (("==" | "!=") cmp)*
//! cmp    = add ((">" | ">=" | "<" | "<=") add)*
//! add    = mul (("+" | "-") mul)*
//! mul    = unary (("*" | "/") unary)*
//! unary  = ("+" | "-")? factor | "*" unary | "&" unary
//! factor = number | ident ("(" args? ")")? | "(" expr ")"
//! ```
//! In `func` and `params` the optional first identifier is a type name.
use vstd::prelude::*;
use crate::ast::{
    BinaryOp, Block, Expr, Function, Program, SExpr, SFunction, SStmt, Stmt, expr_view,
    exprs_view, functions_view, lemma_exprs_view_push, lemma_stmts_view_push, names_view,
    opt_expr_view, stmt_view, stmts_view,
};
use crate::lexer::{SToken, Token, opt_token_debug, opt_token_debug_string, token_debug, token_debug_string, tokens_view};

verus! {

/// The views of the tokens of a slice.
pub open spec fn toks(input: &[Token]) -> Seq<SToken> {
    tokens_view(input@)
}

/// The token at `i`, if there is one.
pub open spec fn tok(t: Seq<SToken>, i: int) -> Option<SToken> {
    if 0 <= i < t.len() {
        Some(t[i])
    } else {
        None
    }
}

/// The message for an unexpected token (or end of input) at `i`.
pub open spec fn unexpected(t: Seq<SToken>, i: int) -> Seq<char> {
    "unexpected token: "@ + opt_token_debug(tok(t, i))
}

/// The message for a statement that does not end in `;`.
pub open spec fn missing_semicolon() -> Seq<char> {
    "';' is required at the end of statements."@
}

/// An expression parsed from `t`, with the position after it, or a message.
pub type ExprResult = Result<(SExpr, int), Seq<char>>;

pub open spec fn binary_spec(op: BinaryOp, lhs: SExpr, rhs: SExpr) -> SExpr {
    SExpr::Binary { op, lhs: Box::new(lhs), rhs: Box::new(rhs) }
}

/// factor = number | ident ("(" args? ")")? | "(" expr ")"
pub open spec fn factor_spec(t: Seq<SToken>, pos: int) -> ExprResult
    decreases t.len() - pos, 1int,
{
    match tok(t, pos) {
        Some(SToken::Num(n)) => Ok((SExpr::Number(n), pos + 1)),
        Some(SToken::Id(name)) => {
            if tok(t, pos + 1) != Some(SToken::ParL) {
                Ok((SExpr::Variable(name), pos + 1))
            } else if tok(t, pos + 2) == Some(SToken::ParR) {
                Ok((SExpr::Call { name, args: seq![] }, pos + 3))
            } else {
                match args_spec(t, pos + 2, seq![]) {
                    Ok((args, p)) => Ok((SExpr::Call { name, args }, p)),
                    Err(m) => Err(m),
                }
            }
        },
        Some(SToken::ParL) => match assign_spec(t, pos + 1) {
            Ok((e, p)) => if tok(t, p) == Some(SToken::ParR) {
                Ok((e, p + 1))
            } else {
                Err("Unexpected character. ')' is expected."@)
            },
            Err(m) => Err(m),
        },
        None => Err("Unexpected EOF"@),
        Some(other) => Err("Unexpected token: "@ + token_debug(other)),
    }
}

/// The arguments of a call from `q` on, after those in `acc`, through the closing `)`.
pub open spec fn args_spec(t: Seq<SToken>, q: int, acc: Seq<SExpr>) -> Result<(Seq<SExpr>, int), Seq<char>>
    decreases t.len() - q, 13int,
{
    match assign_spec(t, q) {
        Ok((e, p)) => if q <= p {
            match tok(t, p) {
                Some(SToken::Comma) => args_spec(t, p + 1, acc.push(e)),
                Some(SToken::ParR) => Ok((acc.push(e), p + 1)),
                _ => Err(unexpected(t, p)),
            }
        } else {
            Err(unexpected(t, p))
        },
        Err(m) => Err(m),
    }
}

/// unary = ("+" | "-")? factor | "*" unary | "&" unary
pub open spec fn unary_spec(t: Seq<SToken>, pos: int) -> ExprResult
    decreases t.len() - pos, 2int,
{
    match tok(t, pos) {
        Some(SToken::Plus) => factor_spec(t, pos + 1),
        Some(SToken::Minus) => match factor_spec(t, pos + 1) {
            Ok((e, p)) => Ok((binary_spec(BinaryOp::Sub, SExpr::Number(0), e), p)),
            Err(m) => Err(m),
        },
        Some(SToken::Mult) => match unary_spec(t, pos + 1) {
            Ok((e, p)) => Ok((SExpr::Deref(Box::new(e)), p)),
            Err(m) => Err(m),
        },
        Some(SToken::Amp) => match unary_spec(t, pos + 1) {
            Ok((e, p)) => Ok((SExpr::Addr(Box::new(e)), p)),
            Err(m) => Err(m),
        },
        _ => factor_spec(t, pos),
    }
}

/// The rest of a `mul`, with `lhs` parsed and the next token at `q`.
pub open spec fn mul_rest_spec(t: Seq<SToken>, lhs: SExpr, q: int) -> ExprResult
    decreases t.len() - q, 3int,
{
    if tok(t, q) == Some(SToken::Mult) || tok(t, q) == Some(SToken::Div) {
        let op = if tok(t, q) == Some(SToken::Mult) { BinaryOp::Mul } else { BinaryOp::Div };
        match unary_spec(t, q + 1) {
            Ok((rhs, p)) => if q < p <= t.len() {
                mul_rest_spec(t, binary_spec(op, lhs, rhs), p)
            } else {
                Err(unexpected(t, p))
            },
            Err(m) => Err(m),
        }
    } else {
        Ok((lhs, q))
    }
}

/// mul = unary (("*" | "/") unary)*, left-associative
pub open spec fn mul_spec(t: Seq<SToken>, pos: int) -> ExprResult
    decreases t.len() - pos, 4int,
{
    match unary_spec(t, pos) {
        Ok((lhs, p)) => if pos <= p <= t.len() {
            mul_rest_spec(t, lhs, p)
        } else {
            Err(unexpected(t, p))
        },
        Err(m) => Err(m),
    }
}

/// The rest of an `add`, with `lhs` parsed and the next token at `q`.
pub open spec fn add_rest_spec(t: Seq<SToken>, lhs: SExpr, q: int) -> ExprResult
    decreases t.len() - q, 5int,
{
    if tok(t, q) == Some(SToken::Plus) || tok(t, q) == Some(SToken::Minus) {
        let op = if tok(t, q) == Some(SToken::Plus) { BinaryOp::Add } else { BinaryOp::Sub };
        match mul_spec(t, q + 1) {
            Ok((rhs, p)) => if q < p <= t.len() {
                add_rest_spec(t, binary_spec(op, lhs, rhs), p)
            } else {
                Err(unexpected(t, p))
            },
            Err(m) => Err(m),
        }
    } else {
        Ok((lhs, q))
    }
}

/// add = mul (("+" | "-") mul)*, left-associative
pub open spec fn add_spec(t: Seq<SToken>, pos: int) -> ExprResult
    decreases t.len() - pos, 6int,
{
    match mul_spec(t, pos) {
        Ok((lhs, p)) => if pos <= p <= t.len() {
            add_rest_spec(t, lhs, p)
        } else {
            Err(unexpected(t, p))
        },
        Err(m) => Err(m),
    }
}

/// Whether the token is a comparison operator.
pub open spec fn is_cmp_token(o: Option<SToken>) -> bool {
    o == Some(SToken::Gt) || o == Some(SToken::Geq) || o == Some(SToken::Lt) || o == Some(SToken::Leq)
}

/// The comparison `lhs op rhs`: `>` and `>=` swap their operands into `<` and `<=`.
pub open spec fn comparison_spec(o: Option<SToken>, lhs: SExpr, rhs: SExpr) -> SExpr {
    if o == Some(SToken::Gt) {
        binary_spec(BinaryOp::Less, rhs, lhs)
    } else if o == Some(SToken::Geq) {
        binary_spec(BinaryOp::LessEqual, rhs, lhs)
    } else if o == Some(SToken::Lt) {
        binary_spec(BinaryOp::Less, lhs, rhs)
    } else {
        binary_spec(BinaryOp::LessEqual, lhs, rhs)
    }
}

/// The rest of a `cmp`, with `lhs` parsed and the next token at `q`.
pub open spec fn cmp_rest_spec(t: Seq<SToken>, lhs: SExpr, q: int) -> ExprResult
    decreases t.len() - q, 7int,
{
    if is_cmp_token(tok(t, q)) {
        match add_spec(t, q + 1) {
            Ok((rhs, p)) => if q < p <= t.len() {
                cmp_rest_spec(t, comparison_spec(tok(t, q), lhs, rhs), p)
            } else {
                Err(unexpected(t, p))
            },
            Err(m) => Err(m),
        }
    } else {
        Ok((lhs, q))
    }
}

/// cmp = add ((">" | ">=" | "<" | "<=") add)*, left-associative
pub open spec fn cmp_spec(t: Seq<SToken>, pos: int) -> ExprResult
    decreases t.len() - pos, 8int,
{
    match add_spec(t, pos) {
        Ok((lhs, p)) => if pos <= p <= t.len() {
            cmp_rest_spec(t, lhs, p)
        } else {
            Err(unexpected(t, p))
        },
        Err(m) => Err(m),
    }
}

/// The rest of an `eq`, with `lhs` parsed and the next token at `q`.
pub open spec fn eq_rest_spec(t: Seq<SToken>, lhs: SExpr, q: int) -> ExprResult
    decreases t.len() - q, 9int,
{
    if tok(t, q) == Some(SToken::Eq) || tok(t, q) == Some(SToken::Neq) {
        let op = if tok(t, q) == Some(SToken::Eq) { BinaryOp::Equal } else { BinaryOp::NotEqual };
        match cmp_spec(t, q + 1) {
            Ok((rhs, p)) => if q < p <= t.len() {
                eq_rest_spec(t, binary_spec(op, lhs, rhs), p)
            } else {
                Err(unexpected(t, p))
            },
            Err(m) => Err(m),
        }
    } else {
        Ok((lhs, q))
    }
}

/// eq = cmp (("==" | "!=") cmp)*, left-associative
pub open spec fn eq_spec(t: Seq<SToken>, pos: int) -> ExprResult
    decreases t.len() - pos, 10int,
{
    match cmp_spec(t, pos) {
        Ok((lhs, p)) => if pos <= p <= t.len() {
            eq_rest_spec(t, lhs, p)
        } else {
            Err(unexpected(t, p))
        },
        Err(m) => Err(m),
    }
}

/// assign = eq ("=" assign)?, right-associative; the target must be a variable
pub open spec fn assign_spec(t: Seq<SToken>, pos: int) -> ExprResult
    decreases t.len() - pos, 12int,
{
    match eq_spec(t, pos) {
        Ok((lhs, p)) => if tok(t, p) != Some(SToken::Assign) {
            Ok((lhs, p))
        } else {
            match lhs {
                SExpr::Variable(name) => if pos <= p {
                    match assign_spec(t, p + 1) {
                        Ok((value, p2)) => Ok((SExpr::Assign { name, value: Box::new(value) }, p2)),
                        Err(m) => Err(m),
                    }
                } else {
                    Err(unexpected(t, p))
                },
                _ => Err("lhs of assign expression must be identifier."@),
            }
        },
        Err(m) => Err(m),
    }
}

/// An optional expression followed by the token `delim`.
pub open spec fn opt_spec(t: Seq<SToken>, pos: int, delim: SToken) -> Result<(Option<SExpr>, int), Seq<char>> {
    if tok(t, pos) == Some(delim) {
        Ok((None, pos + 1))
    } else {
        match assign_spec(t, pos) {
            Ok((e, p)) => if tok(t, p) == Some(delim) {
                Ok((Some(e), p + 1))
            } else {
                Err(unexpected(t, p))
            },
            Err(m) => Err(m),
        }
    }
}

/// The type and variable names of a declaration starting at `pos`, if two
/// identifiers start there.
pub open spec fn decl_names(t: Seq<SToken>, pos: int) -> Option<(Seq<char>, Seq<char>)> {
    match tok(t, pos) {
        Some(SToken::Id(ty)) => match tok(t, pos + 1) {
            Some(SToken::Id(name)) => Some((ty, name)),
            _ => None,
        },
        _ => None,
    }
}

/// An expression followed by `;`.
pub open spec fn expr_semi_spec(t: Seq<SToken>, pos: int) -> ExprResult {
    match assign_spec(t, pos) {
        Ok((e, p)) => if tok(t, p) == Some(SToken::Semi) {
            Ok((e, p + 1))
        } else {
            Err(missing_semicolon())
        },
        Err(m) => Err(m),
    }
}

/// A statement parsed from `t`, with the position after it, or a message.
pub type StmtResult = Result<(SStmt, int), Seq<char>>;

/// The rest of an `if` after its condition and `)`, with the then-branch at `q`.
pub open spec fn if_rest_spec(t: Seq<SToken>, pos: int, condition: SExpr, q: int) -> StmtResult
    decreases t.len() - pos, 1int,
{
    if pos < q <= t.len() {
        match stmt_spec(t, q) {
            Ok((then_branch, p)) => if tok(t, p) == Some(SToken::Else) {
                if pos < p {
                    match stmt_spec(t, p + 1) {
                        Ok((else_branch, p2)) => Ok((
                            SStmt::If {
                                condition,
                                then_branch: Box::new(then_branch),
                                else_branch: Some(Box::new(else_branch)),
                            },
                            p2,
                        )),
                        Err(m) => Err(m),
                    }
                } else {
                    Err(unexpected(t, p))
                }
            } else {
                Ok((SStmt::If { condition, then_branch: Box::new(then_branch), else_branch: None }, p))
            },
            Err(m) => Err(m),
        }
    } else {
        Err(unexpected(t, q))
    }
}

/// stmt, as in the grammar at the top of this module
pub open spec fn stmt_spec(t: Seq<SToken>, pos: int) -> StmtResult
    decreases t.len() - pos, 2int,
{
    match tok(t, pos) {
        Some(SToken::BraceL) => match block_spec(t, pos) {
            Ok((b, p)) => Ok((SStmt::Block(b), p)),
            Err(m) => Err(m),
        },
        Some(SToken::If) => if tok(t, pos + 1) != Some(SToken::ParL) {
            Err(unexpected(t, pos + 1))
        } else {
            match assign_spec(t, pos + 2) {
                Ok((condition, p)) => if tok(t, p) != Some(SToken::ParR) {
                    Err(unexpected(t, p))
                } else {
                    if_rest_spec(t, pos, condition, p + 1)
                },
                Err(m) => Err(m),
            }
        },
        Some(SToken::While) => if tok(t, pos + 1) != Some(SToken::ParL) {
            Err(unexpected(t, pos + 1))
        } else {
            match assign_spec(t, pos + 2) {
                Ok((condition, p)) => if tok(t, p) != Some(SToken::ParR) {
                    Err(unexpected(t, p))
                } else if pos <= p {
                    match stmt_spec(t, p + 1) {
                        Ok((body, p2)) => Ok((SStmt::While { condition, body: Box::new(body) }, p2)),
                        Err(m) => Err(m),
                    }
                } else {
                    Err(unexpected(t, p))
                },
                Err(m) => Err(m),
            }
        },
        Some(SToken::For) => if tok(t, pos + 1) != Some(SToken::ParL) {
            Err(unexpected(t, pos + 1))
        } else {
            match opt_spec(t, pos + 2, SToken::Semi) {
                Ok((init, p1)) => match opt_spec(t, p1, SToken::Semi) {
                    Ok((condition, p2)) => match opt_spec(t, p2, SToken::ParR) {
                        Ok((update, p3)) => if pos < p3 <= t.len() {
                            match stmt_spec(t, p3) {
                                Ok((body, p4)) => Ok((
                                    SStmt::For { init, condition, update, body: Box::new(body) },
                                    p4,
                                )),
                                Err(m) => Err(m),
                            }
                        } else {
                            Err(unexpected(t, p3))
                        },
                        Err(m) => Err(m),
                    },
                    Err(m) => Err(m),
                },
                Err(m) => Err(m),
            }
        },
        Some(SToken::Return) => match expr_semi_spec(t, pos + 1) {
            Ok((e, p)) => Ok((SStmt::Return(e), p)),
            Err(m) => Err(m),
        },
        _ => match decl_names(t, pos) {
            Some((var_type, var_name)) => if tok(t, pos + 2) == Some(SToken::Semi) {
                Ok((SStmt::Decl { var_type, var_name }, pos + 3))
            } else {
                Err(missing_semicolon())
            },
            None => match expr_semi_spec(t, pos) {
                Ok((e, p)) => Ok((SStmt::Expr(e), p)),
                Err(m) => Err(m),
            },
        },
    }
}

/// block = "{" stmt* "}"
pub open spec fn block_spec(t: Seq<SToken>, pos: int) -> Result<(Seq<SStmt>, int), Seq<char>>
    decreases t.len() - pos, 1int,
{
    if tok(t, pos) != Some(SToken::BraceL) {
        Err(unexpected(t, pos))
    } else {
        block_rest_spec(t, pos + 1, seq![])
    }
}

/// The statements of a block from `q` on, after those in `acc`, through the closing `}`.
pub open spec fn block_rest_spec(t: Seq<SToken>, q: int, acc: Seq<SStmt>) -> Result<(Seq<SStmt>, int), Seq<char>>
    decreases t.len() - q, 3int,
{
    match tok(t, q) {
        Some(SToken::BraceR) => Ok((acc, q + 1)),
        None => Err("Unexpected EOF. '}' is expected."@),
        Some(_) => match stmt_spec(t, q) {
            Ok((s, p)) => if q < p <= t.len() {
                block_rest_spec(t, p, acc.push(s))
            } else {
                Err(unexpected(t, p))
            },
            Err(m) => Err(m),
        },
    }
}

/// Whether the token is an identifier.
pub open spec fn is_id(o: Option<SToken>) -> bool {
    match o {
        Some(SToken::Id(_)) => true,
        _ => false,
    }
}

/// The parameter names from `q` on, after those in `acc`, through the closing `)`.
pub open spec fn params_spec(t: Seq<SToken>, q: int, acc: Seq<Seq<char>>) -> Result<(Seq<Seq<char>>, int), Seq<char>>
    decreases t.len() - q,
{
    match tok(t, q) {
        Some(SToken::Id(first)) => {
            let typed = is_id(tok(t, q + 1));
            let name = if typed {
                match tok(t, q + 1) {
                    Some(SToken::Id(second)) => second,
                    _ => first,
                }
            } else {
                first
            };
            let p = if typed { q + 2 } else { q + 1 };
            match tok(t, p) {
                Some(SToken::Comma) => params_spec(t, p + 1, acc.push(name)),
                Some(SToken::ParR) => Ok((acc.push(name), p + 1)),
                _ => Err(unexpected(t, p)),
            }
        },
        _ => Err(unexpected(t, q)),
    }
}

/// A function named `name` with the given parameter result, followed by its body.
pub open spec fn function_tail_spec(t: Seq<SToken>, name: Seq<char>, params: Result<(Seq<Seq<char>>, int), Seq<char>>) -> Result<(SFunction, int), Seq<char>> {
    match params {
        Ok((params, p)) => match block_spec(t, p) {
            Ok((body, p2)) => Ok((SFunction { name, params, body }, p2)),
            Err(m) => Err(m),
        },
        Err(m) => Err(m),
    }
}

/// func = ident? ident "(" params? ")" block
pub open spec fn function_spec(t: Seq<SToken>, pos: int) -> Result<(SFunction, int), Seq<char>> {
    let name_at = if is_id(tok(t, pos)) && is_id(tok(t, pos + 1)) { pos + 1 } else { pos };
    match tok(t, name_at) {
        Some(SToken::Id(name)) => if tok(t, name_at + 1) != Some(SToken::ParL) {
            Err(unexpected(t, name_at + 1))
        } else {
            function_tail_spec(
                t,
                name,
                if tok(t, name_at + 2) == Some(SToken::ParR) {
                    Ok((Seq::<Seq<char>>::empty(), name_at + 3))
                } else {
                    params_spec(t, name_at + 2, seq![])
                },
            )
        },
        _ => Err(unexpected(t, name_at)),
    }
}

/// The functions from `pos` on, after those in `acc`.
pub open spec fn program_spec(t: Seq<SToken>, pos: int, acc: Seq<SFunction>) -> Result<Seq<SFunction>, Seq<char>>
    decreases t.len() - pos,
{
    if pos < 0 || pos >= t.len() {
        Ok(acc)
    } else {
        match function_spec(t, pos) {
            Ok((f, p)) => if pos < p <= t.len() {
                program_spec(t, p, acc.push(f))
            } else {
                Err(unexpected(t, p))
            },
            Err(m) => Err(m),
        }
    }
}

/// prog = func*
pub open spec fn parse_spec(t: Seq<SToken>) -> Result<Seq<SFunction>, Seq<char>> {
    program_spec(t, 0, seq![])
}

/// A position as an integer.
pub open spec fn ix(p: usize) -> int {
    p as int
}

/// An expression result of the spec and of the code agree; `new_pos` is the
/// position that the code reached.
pub open spec fn expr_outcome(s: ExprResult, res: Result<Expr, String>, new_pos: int) -> bool {
    match s {
        Ok((e, p)) => res matches Ok(r) && r@ == e && new_pos == p,
        Err(m) => res matches Err(msg) && msg@ == m,
    }
}

/// The token at `pos`, if there is one.
fn peek<'a>(input: &'a [Token], pos: usize) -> (r: Option<&'a Token>)
    ensures
        toks(input).len() == input@.len(),
        input@.len() <= usize::MAX,
        r is Some <==> pos < input@.len(),
        match tok(toks(input), ix(pos)) {
            Some(t) => r matches Some(x) && x@ == t,
            None => r is None,
        },
{
    let _len = input.len();
    input.get(pos)
}

/// The message for an unexpected token (or end of input) at `pos`.
fn unexpected_at(input: &[Token], pos: usize) -> (s: String)
    ensures
        s@ == unexpected(toks(input), ix(pos)),
{
    let mut s = String::from_str("unexpected token: ");
    let d = opt_token_debug_string(peek(input, pos));
    s.append(d.as_str());
    s
}

fn binary(lhs: Expr, op: BinaryOp, rhs: Expr) -> (e: Expr)
    ensures
        e@ == binary_spec(op, lhs@, rhs@),
{
    Expr::Binary { op, lhs: Box::new(lhs), rhs: Box::new(rhs) }
}

fn parse_factor(input: &[Token], pos: &mut usize) -> (res: Result<Expr, String>)
    requires
        *old(pos) <= input@.len(),
    ensures
        expr_outcome(factor_spec(toks(input), ix(*old(pos))), res, ix(*final(pos))),
        res is Ok ==> *old(pos) < *final(pos) <= input@.len(),
    decreases input@.len() - *old(pos), 1int,
{
    let ghost t = toks(input);
    let ghost start = ix(*pos);
    match peek(input, *pos) {
        Some(Token::Num(number)) => {
            *pos += 1;
            Ok(Expr::Number(*number))
        },
        Some(Token::Id(name)) => {
            let name = name.clone();
            *pos += 1;
            if !matches!(peek(input, *pos), Some(Token::ParL)) {
                return Ok(Expr::Variable(name));
            }
            *pos += 1;
            let mut args: Vec<Expr> = Vec::new();
            if matches!(peek(input, *pos), Some(Token::ParR)) {
                *pos += 1;
                return Ok(Expr::Call { name, args });
            }
            loop
                invariant
                    t == toks(input),
                    start == ix(*old(pos)),
                    start + 2 <= *pos <= input@.len(),
                    tok(t, start) == Some(SToken::Id(name@)),
                    tok(t, start + 1) == Some(SToken::ParL),
                    tok(t, start + 2) != Some(SToken::ParR),
                    args_spec(t, ix(*pos), exprs_view(args@)) == args_spec(t, start + 2, seq![]),
                decreases input@.len() - *pos,
            {
                let ghost q = ix(*pos);
                let ghost acc = exprs_view(args@);
                let e = parse_expr(input, pos)?;
                proof {
                    lemma_exprs_view_push(args@, e);
                }
                args.push(e);
                match peek(input, *pos) {
                    Some(Token::Comma) => {
                        *pos += 1;
                    },
                    Some(Token::ParR) => {
                        *pos += 1;
                        return Ok(Expr::Call { name, args });
                    },
                    _ => return Err(unexpected_at(input, *pos)),
                }
            }
        },
        Some(Token::ParL) => {
            *pos += 1;
            let expr = parse_expr(input, pos)?;
            if !matches!(peek(input, *pos), Some(Token::ParR)) {
                return Err(String::from_str("Unexpected character. ')' is expected."));
            }
            *pos += 1;
            Ok(expr)
        },
        None => Err(String::from_str("Unexpected EOF")),
        Some(token) => {
            let mut s = String::from_str("Unexpected token: ");
            let d = token_debug_string(token);
            s.append(d.as_str());
            Err(s)
        },
    }
}

fn parse_unary(input: &[Token], pos: &mut usize) -> (res: Result<Expr, String>)
    requires
        *old(pos) <= input@.len(),
    ensures
        expr_outcome(unary_spec(toks(input), ix(*old(pos))), res, ix(*final(pos))),
        res is Ok ==> *old(pos) < *final(pos) <= input@.len(),
    decreases input@.len() - *old(pos), 2int,
{
    match peek(input, *pos) {
        Some(Token::Plus) => {
            *pos += 1;
            parse_factor(input, pos)
        },
        Some(Token::Minus) => {
            *pos += 1;
            let rhs = parse_factor(input, pos)?;
            Ok(binary(Expr::Number(0), BinaryOp::Sub, rhs))
        },
        Some(Token::Mult) => {
            *pos += 1;
            let operand = parse_unary(input, pos)?;
            Ok(Expr::Deref(Box::new(operand)))
        },
        Some(Token::Amp) => {
            *pos += 1;
            let operand = parse_unary(input, pos)?;
            Ok(Expr::Addr(Box::new(operand)))
        },
        _ => parse_factor(input, pos),
    }
}

#[verifier::rlimit(40)]
fn parse_mul(input: &[Token], pos: &mut usize) -> (res: Result<Expr, String>)
    requires
        *old(pos) <= input@.len(),
    ensures
        expr_outcome(mul_spec(toks(input), ix(*old(pos))), res, ix(*final(pos))),
        res is Ok ==> *old(pos) < *final(pos) <= input@.len(),
    decreases input@.len() - *old(pos), 4int,
{
    let ghost t = toks(input);
    let ghost start = ix(*pos);
    let mut lhs = parse_unary(input, pos)?;
    loop
        invariant
            t == toks(input),
            start == ix(*old(pos)),
            start < *pos <= input@.len(),
            mul_rest_spec(t, lhs@, ix(*pos)) == mul_spec(t, start),
        decreases input@.len() - *pos,
    {
        let op = match peek(input, *pos) {
            Some(Token::Mult) => BinaryOp::Mul,
            Some(Token::Div) => BinaryOp::Div,
            _ => return Ok(lhs),
        };
        *pos += 1;
        let rhs = parse_unary(input, pos)?;
        lhs = binary(lhs, op, rhs);
    }
}

#[verifier::rlimit(40)]
fn parse_add(input: &[Token], pos: &mut usize) -> (res: Result<Expr, String>)
    requires
        *old(pos) <= input@.len(),
    ensures
        expr_outcome(add_spec(toks(input), ix(*old(pos))), res, ix(*final(pos))),
        res is Ok ==> *old(pos) < *final(pos) <= input@.len(),
    decreases input@.len() - *old(pos), 6int,
{
    let ghost t = toks(input);
    let ghost start = ix(*pos);
    let mut lhs = parse_mul(input, pos)?;
    loop
        invariant
            t == toks(input),
            start == ix(*old(pos)),
            start < *pos <= input@.len(),
            add_rest_spec(t, lhs@, ix(*pos)) == add_spec(t, start),
        decreases input@.len() - *pos,
    {
        let op = match peek(input, *pos) {
            Some(Token::Plus) => BinaryOp::Add,
            Some(Token::Minus) => BinaryOp::Sub,
            _ => return Ok(lhs),
        };
        *pos += 1;
        let rhs = parse_mul(input, pos)?;
        lhs = binary(lhs, op, rhs);
    }
}

#[verifier::rlimit(40)]
fn parse_cmp(input: &[Token], pos: &mut usize) -> (res: Result<Expr, String>)
    requires
        *old(pos) <= input@.len(),
    ensures
        expr_outcome(cmp_spec(toks(input), ix(*old(pos))), res, ix(*final(pos))),
        res is Ok ==> *old(pos) < *final(pos) <= input@.len(),
    decreases input@.len() - *old(pos), 8int,
{
    let ghost t = toks(input);
    let ghost start = ix(*pos);
    let mut lhs = parse_add(input, pos)?;
    loop
        invariant
            t == toks(input),
            start == ix(*old(pos)),
            start < *pos <= input@.len(),
            cmp_rest_spec(t, lhs@, ix(*pos)) == cmp_spec(t, start),
        decreases input@.len() - *pos,
    {
        match peek(input, *pos) {
            Some(Token::Gt) => {
                *pos += 1;
                let rhs = parse_add(input, pos)?;
                lhs = binary(rhs, BinaryOp::Less, lhs);
            },
            Some(Token::Geq) => {
                *pos += 1;
                let rhs = parse_add(input, pos)?;
                lhs = binary(rhs, BinaryOp::LessEqual, lhs);
            },
            Some(Token::Lt) => {
                *pos += 1;
                let rhs = parse_add(input, pos)?;
                lhs = binary(lhs, BinaryOp::Less, rhs);
            },
            Some(Token::Leq) => {
                *pos += 1;
                let rhs = parse_add(input, pos)?;
                lhs = binary(lhs, BinaryOp::LessEqual, rhs);
            },
            _ => return Ok(lhs),
        }
    }
}

#[verifier::rlimit(40)]
fn parse_eq(input: &[Token], pos: &mut usize) -> (res: Result<Expr, String>)
    requires
        *old(pos) <= input@.len(),
    ensures
        expr_outcome(eq_spec(toks(input), ix(*old(pos))), res, ix(*final(pos))),
        res is Ok ==> *old(pos) < *final(pos) <= input@.len(),
    decreases input@.len() - *old(pos), 10int,
{
    let ghost t = toks(input);
    let ghost start = ix(*pos);
    let mut lhs = parse_cmp(input, pos)?;
    loop
        invariant
            t == toks(input),
            start == ix(*old(pos)),
            start < *pos <= input@.len(),
            eq_rest_spec(t, lhs@, ix(*pos)) == eq_spec(t, start),
        decreases input@.len() - *pos,
    {
        let op = match peek(input, *pos) {
            Some(Token::Eq) => BinaryOp::Equal,
            Some(Token::Neq) => BinaryOp::NotEqual,
            _ => return Ok(lhs),
        };
        *pos += 1;
        let rhs = parse_cmp(input, pos)?;
        lhs = binary(lhs, op, rhs);
    }
}

fn parse_assign(input: &[Token], pos: &mut usize) -> (res: Result<Expr, String>)
    requires
        *old(pos) <= input@.len(),
    ensures
        expr_outcome(assign_spec(toks(input), ix(*old(pos))), res, ix(*final(pos))),
        res is Ok ==> *old(pos) < *final(pos) <= input@.len(),
    decreases input@.len() - *old(pos), 12int,
{
    let lhs = parse_eq(input, pos)?;
    if !matches!(peek(input, *pos), Some(Token::Assign)) {
        return Ok(lhs);
    }
    let name = match lhs {
        Expr::Variable(name) => name,
        _ => return Err(String::from_str("lhs of assign expression must be identifier.")),
    };
    *pos += 1;
    let value = parse_assign(input, pos)?;
    Ok(Expr::Assign { name, value: Box::new(value) })
}

fn parse_expr(input: &[Token], pos: &mut usize) -> (res: Result<Expr, String>)
    requires
        *old(pos) <= input@.len(),
    ensures
        expr_outcome(assign_spec(toks(input), ix(*old(pos))), res, ix(*final(pos))),
        res is Ok ==> *old(pos) < *final(pos) <= input@.len(),
    decreases input@.len() - *old(pos), 13int,
{
    parse_assign(input, pos)
}

/// A statement result of the spec and of the code agree.
pub open spec fn stmt_outcome(s: StmtResult, res: Result<Stmt, String>, new_pos: int) -> bool {
    match s {
        Ok((st, p)) => res matches Ok(r) && r@ == st && new_pos == p,
        Err(m) => res matches Err(msg) && msg@ == m,
    }
}

/// A block result of the spec and of the code agree.
pub open spec fn block_outcome(s: Result<(Seq<SStmt>, int), Seq<char>>, res: Result<Block, String>, new_pos: int) -> bool {
    match s {
        Ok((b, p)) => res matches Ok(r) && r@ == b && new_pos == p,
        Err(m) => res matches Err(msg) && msg@ == m,
    }
}

fn parse_block(input: &[Token], pos: &mut usize) -> (res: Result<Block, String>)
    requires
        *old(pos) <= input@.len(),
    ensures
        block_outcome(block_spec(toks(input), ix(*old(pos))), res, ix(*final(pos))),
        res is Ok ==> *old(pos) < *final(pos) <= input@.len(),
    decreases input@.len() - *old(pos), 1int,
{
    let ghost t = toks(input);
    let ghost start = ix(*pos);
    if !matches!(peek(input, *pos), Some(Token::BraceL)) {
        return Err(unexpected_at(input, *pos));
    }
    *pos += 1;
    let mut statements: Vec<Stmt> = Vec::new();
    loop
        invariant
            t == toks(input),
            start == ix(*old(pos)),
            start < *pos <= input@.len(),
            tok(t, start) == Some(SToken::BraceL),
            block_rest_spec(t, ix(*pos), stmts_view(statements@)) == block_spec(t, start),
        decreases input@.len() - *pos,
    {
        match peek(input, *pos) {
            Some(Token::BraceR) => {
                *pos += 1;
                return Ok(Block { statements });
            },
            None => return Err(String::from_str("Unexpected EOF. '}' is expected.")),
            _ => {
                let statement = parse_stmt(input, pos)?;
                proof {
                    lemma_stmts_view_push(statements@, statement);
                }
                statements.push(statement);
            },
        }
    }
}

fn expect_paren(input: &[Token], pos: &mut usize, left: bool) -> (res: Result<(), String>)
    requires
        *old(pos) <= input@.len(),
    ensures
        tok(toks(input), ix(*old(pos))) == Some(if left { SToken::ParL } else { SToken::ParR }) ==> res is Ok && *final(pos) == *old(pos) + 1,
        tok(toks(input), ix(*old(pos))) != Some(if left { SToken::ParL } else { SToken::ParR }) ==> (res matches Err(e) && e@ == unexpected(toks(input), ix(*old(pos)))),
{
    let matches = if left {
        matches!(peek(input, *pos), Some(Token::ParL))
    } else {
        matches!(peek(input, *pos), Some(Token::ParR))
    };
    if !matches {
        return Err(unexpected_at(input, *pos));
    }
    *pos += 1;
    Ok(())
}

/// The tokens that can end an optional expression.
#[derive(Clone, Copy)]
enum TokenKind {
    Semi,
    ParR,
}

spec fn kind_token(kind: TokenKind) -> SToken {
    match kind {
        TokenKind::Semi => SToken::Semi,
        TokenKind::ParR => SToken::ParR,
    }
}

fn is_delimiter(token: Option<&Token>, kind: TokenKind) -> (r: bool)
    ensures
        r == (match token { Some(x) => Some(x@), None => None } == Some(kind_token(kind))),
{
    match kind {
        TokenKind::Semi => matches!(token, Some(Token::Semi)),
        TokenKind::ParR => matches!(token, Some(Token::ParR)),
    }
}

fn parse_optional_expr(input: &[Token], pos: &mut usize, delimiter: TokenKind) -> (res: Result<Option<Expr>, String>)
    requires
        *old(pos) <= input@.len(),
    ensures
        match opt_spec(toks(input), ix(*old(pos)), kind_token(delimiter)) {
            Ok((o, p)) => res matches Ok(r) && opt_expr_view(r) == o && ix(*final(pos)) == p,
            Err(m) => res matches Err(e) && e@ == m,
        },
        res is Ok ==> *old(pos) < *final(pos) <= input@.len(),
{
    if is_delimiter(peek(input, *pos), delimiter) {
        *pos += 1;
        return Ok(None);
    }
    let expr = parse_expr(input, pos)?;
    if !is_delimiter(peek(input, *pos), delimiter) {
        return Err(unexpected_at(input, *pos));
    }
    *pos += 1;
    Ok(Some(expr))
}

fn expect_semicolon(input: &[Token], pos: &mut usize) -> (res: Result<(), String>)
    requires
        *old(pos) <= input@.len(),
    ensures
        tok(toks(input), ix(*old(pos))) == Some(SToken::Semi) ==> res is Ok && *final(pos) == *old(pos) + 1,
        tok(toks(input), ix(*old(pos))) != Some(SToken::Semi) ==> (res matches Err(e) && e@ == missing_semicolon()),
{
    if !matches!(peek(input, *pos), Some(Token::Semi)) {
        return Err(String::from_str("';' is required at the end of statements."));
    }
    *pos += 1;
    Ok(())
}

#[verifier::rlimit(60)]
fn parse_stmt(input: &[Token], pos: &mut usize) -> (res: Result<Stmt, String>)
    requires
        *old(pos) <= input@.len(),
    ensures
        stmt_outcome(stmt_spec(toks(input), ix(*old(pos))), res, ix(*final(pos))),
        res is Ok ==> *old(pos) < *final(pos) <= input@.len(),
    decreases input@.len() - *old(pos), 2int,
{
    let ghost t = toks(input);
    let ghost start = ix(*pos);
    match peek(input, *pos) {
        Some(Token::BraceL) => Ok(Stmt::Block(parse_block(input, pos)?)),
        Some(Token::If) => {
            *pos += 1;
            expect_paren(input, pos, true)?;
            let condition = parse_expr(input, pos)?;
            expect_paren(input, pos, false)?;
            let ghost q = ix(*pos);
            assert(stmt_spec(t, start) == if_rest_spec(t, start, condition@, q));
            let then_branch = Box::new(parse_stmt(input, pos)?);
            let else_branch = if matches!(peek(input, *pos), Some(Token::Else)) {
                *pos += 1;
                Some(Box::new(parse_stmt(input, pos)?))
            } else {
                None
            };
            Ok(Stmt::If { condition, then_branch, else_branch })
        },
        Some(Token::While) => {
            *pos += 1;
            expect_paren(input, pos, true)?;
            let condition = parse_expr(input, pos)?;
            expect_paren(input, pos, false)?;
            Ok(Stmt::While { condition, body: Box::new(parse_stmt(input, pos)?) })
        },
        Some(Token::For) => {
            *pos += 1;
            expect_paren(input, pos, true)?;
            let init = parse_optional_expr(input, pos, TokenKind::Semi)?;
            let condition = parse_optional_expr(input, pos, TokenKind::Semi)?;
            let update = parse_optional_expr(input, pos, TokenKind::ParR)?;
            Ok(Stmt::For { init, condition, update, body: Box::new(parse_stmt(input, pos)?) })
        },
        Some(Token::Return) => {
            *pos += 1;
            let expr = parse_expr(input, pos)?;
            expect_semicolon(input, pos)?;
            Ok(Stmt::Return(expr))
        },
        _ => {
            if let Some(Token::Id(var_type)) = peek(input, *pos) {
                if let Some(Token::Id(var_name)) = peek(input, *pos + 1) {
                    let var_type = var_type.clone();
                    let var_name = var_name.clone();
                    *pos += 2;
                    expect_semicolon(input, pos)?;
                    return Ok(Stmt::Decl { var_type, var_name });
                }
            }
            let expr = parse_expr(input, pos)?;
            expect_semicolon(input, pos)?;
            Ok(Stmt::Expr(expr))
        },
    }
}

#[verifier::rlimit(40)]
fn parse_function(input: &[Token], pos: &mut usize) -> (res: Result<Function, String>)
    requires
        *old(pos) <= input@.len(),
    ensures
        match function_spec(toks(input), ix(*old(pos))) {
            Ok((f, p)) => res matches Ok(r) && r@ == f && ix(*final(pos)) == p,
            Err(m) => res matches Err(e) && e@ == m,
        },
        res is Ok ==> *old(pos) < *final(pos) <= input@.len(),
{
    let ghost t = toks(input);
    let typed = matches!(peek(input, *pos), Some(Token::Id(_))) && matches!(peek(input, *pos + 1), Some(Token::Id(_)));
    if typed {
        *pos += 1;
    }
    let name = match peek(input, *pos) {
        Some(Token::Id(name)) => name.clone(),
        _ => return Err(unexpected_at(input, *pos)),
    };
    *pos += 1;
    expect_paren(input, pos, true)?;
    let ghost first_param = ix(*pos);
    let mut params: Vec<String> = Vec::new();
    proof {
        assert(names_view(params@) =~= Seq::<Seq<char>>::empty());
    }
    if matches!(peek(input, *pos), Some(Token::ParR)) {
        *pos += 1;
    } else {
        loop
            invariant_except_break
                t == toks(input),
                first_param <= *pos <= input@.len(),
                function_spec(t, ix(*old(pos))) == function_tail_spec(t, name@, params_spec(t, first_param, seq![])),
                params_spec(t, ix(*pos), names_view(params@)) == params_spec(t, first_param, seq![]),
            ensures
                first_param < *pos <= input@.len(),
                params_spec(t, first_param, seq![]) == Ok::<(Seq<Seq<char>>, int), Seq<char>>((names_view(params@), ix(*pos))),
            decreases input@.len() - *pos,
        {
            let ghost q = ix(*pos);
            let name = match peek(input, *pos) {
                Some(Token::Id(first)) => match peek(input, *pos + 1) {
                    Some(Token::Id(second)) => {
                        *pos += 2;
                        second.clone()
                    },
                    _ => {
                        *pos += 1;
                        first.clone()
                    },
                },
                _ => return Err(unexpected_at(input, *pos)),
            };
            proof {
                assert(names_view(params@.push(name)) =~= names_view(params@).push(name@));
            }
            params.push(name);
            match peek(input, *pos) {
                Some(Token::Comma) => {
                    *pos += 1;
                },
                Some(Token::ParR) => {
                    *pos += 1;
                    break;
                },
                _ => return Err(unexpected_at(input, *pos)),
            }
        }
    }
    let body = parse_block(input, pos)?;
    Ok(Function { name, params, body })
}

/// Parses a whole program: a sequence of function definitions.
pub fn parse(input: &[Token]) -> (res: Result<Program, String>)
    ensures
        match parse_spec(toks(input)) {
            Ok(fs) => res matches Ok(p) && p@ == fs,
            Err(m) => res matches Err(e) && e@ == m,
        },
{
    let ghost t = toks(input);
    let mut pos: usize = 0;
    let mut functions: Vec<Function> = Vec::new();
    proof {
        assert(functions_view(functions@) =~= Seq::<SFunction>::empty());
    }
    while pos < input.len()
        invariant
            t == toks(input),
            pos <= input@.len(),
            program_spec(t, ix(pos), functions_view(functions@)) == parse_spec(t),
        decreases input@.len() - pos,
    {
        let function = parse_function(input, &mut pos)?;
        proof {
            assert(functions_view(functions@.push(function)) =~= functions_view(functions@).push(function@));
        }
        functions.push(function);
    }
    Ok(Program { functions })
}

/// The four comparison tokens.
pub open spec fn comparison_token(o: Option<SToken>) -> bool {
    o == Some(SToken::Lt) || o == Some(SToken::Leq) || o == Some(SToken::Gt) || o == Some(SToken::Geq)
}

/// A comparison of two additive expressions `x` and `y`: `x < y` and `x <= y`
/// keep their operands, while `x > y` parses as `y < x` and `x >= y` as
/// `y <= x`, so that each is true exactly when the source comparison is.
pub proof fn comparison_operands(t: Seq<SToken>, pos: int, x: SExpr, q: int, y: SExpr, r: int)
    requires
        add_spec(t, pos) == Ok::<(SExpr, int), Seq<char>>((x, q)),
        pos <= q <= t.len(),
        comparison_token(tok(t, q)),
        add_spec(t, q + 1) == Ok::<(SExpr, int), Seq<char>>((y, r)),
        q < r <= t.len(),
        !comparison_token(tok(t, r)),
    ensures
        tok(t, q) == Some(SToken::Lt) ==> cmp_spec(t, pos) == Ok::<(SExpr, int), Seq<char>>(
            (SExpr::Binary { op: BinaryOp::Less, lhs: Box::new(x), rhs: Box::new(y) }, r),
        ),
        tok(t, q) == Some(SToken::Leq) ==> cmp_spec(t, pos) == Ok::<(SExpr, int), Seq<char>>(
            (SExpr::Binary { op: BinaryOp::LessEqual, lhs: Box::new(x), rhs: Box::new(y) }, r),
        ),
        tok(t, q) == Some(SToken::Gt) ==> cmp_spec(t, pos) == Ok::<(SExpr, int), Seq<char>>(
            (SExpr::Binary { op: BinaryOp::Less, lhs: Box::new(y), rhs: Box::new(x) }, r),
        ),
        tok(t, q) == Some(SToken::Geq) ==> cmp_spec(t, pos) == Ok::<(SExpr, int), Seq<char>>(
            (SExpr::Binary { op: BinaryOp::LessEqual, lhs: Box::new(y), rhs: Box::new(x) }, r),
        ),
{
    let z = comparison_spec(tok(t, q), x, y);
    assert(cmp_rest_spec(t, z, r) == Ok::<(SExpr, int), Seq<char>>((z, r)));
    assert(cmp_rest_spec(t, x, q) == Ok::<(SExpr, int), Seq<char>>((z, r)));
}

} // verus!
