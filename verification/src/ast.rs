//! The syntax tree that the parser builds, with source-level names.
use vstd::prelude::*;

verus! {

#[derive(Debug, PartialEq, Eq)]
pub struct Program {
    pub functions: Vec<Function>,
}

#[derive(Debug, PartialEq, Eq)]
pub struct Function {
    pub name: String,
    pub params: Vec<String>,
    pub body: Block,
}

#[derive(Debug, PartialEq, Eq)]
pub struct Block {
    pub statements: Vec<Stmt>,
}

#[derive(Debug, PartialEq, Eq)]
pub enum Stmt {
    Expr(Expr),
    Return(Expr),
    Block(Block),
    If { condition: Expr, then_branch: Box<Stmt>, else_branch: Option<Box<Stmt>> },
    While { condition: Expr, body: Box<Stmt> },
    For {
        init: Option<Expr>,
        condition: Option<Expr>,
        update: Option<Expr>,
        body: Box<Stmt>,
    },
    /// A declaration of one uninitialized variable: `var_type var_name;`.
    Decl { var_type: String, var_name: String },
}

#[derive(Debug, PartialEq, Eq)]
pub enum Expr {
    Number(u64),
    Variable(String),
    Assign { name: String, value: Box<Expr> },
    Binary { op: BinaryOp, lhs: Box<Expr>, rhs: Box<Expr> },
    Call { name: String, args: Vec<Expr> },
    /// `&operand`: the address of a variable.
    Addr(Box<Expr>),
    /// `*operand`: the 64-bit value stored at an address.
    Deref(Box<Expr>),
}

#[derive(Clone, Copy, Debug, PartialEq, Eq)]
pub enum BinaryOp {
    Add,
    Sub,
    Mul,
    Div,
    Less,
    LessEqual,
    Equal,
    NotEqual,
}

/// The mathematical value of an expression: names are sequences of characters.
pub enum SExpr {
    Number(u64),
    Variable(Seq<char>),
    Assign { name: Seq<char>, value: Box<SExpr> },
    Binary { op: BinaryOp, lhs: Box<SExpr>, rhs: Box<SExpr> },
    Call { name: Seq<char>, args: Seq<SExpr> },
    Addr(Box<SExpr>),
    Deref(Box<SExpr>),
}

/// The mathematical value of a statement; a block is its sequence of statements.
pub enum SStmt {
    Expr(SExpr),
    Return(SExpr),
    Block(Seq<SStmt>),
    If { condition: SExpr, then_branch: Box<SStmt>, else_branch: Option<Box<SStmt>> },
    While { condition: SExpr, body: Box<SStmt> },
    For {
        init: Option<SExpr>,
        condition: Option<SExpr>,
        update: Option<SExpr>,
        body: Box<SStmt>,
    },
    Decl { var_type: Seq<char>, var_name: Seq<char> },
}

/// The mathematical value of a function definition.
pub struct SFunction {
    pub name: Seq<char>,
    pub params: Seq<Seq<char>>,
    pub body: Seq<SStmt>,
}

pub open spec fn expr_view(e: Expr) -> SExpr
    decreases e,
{
    match e {
        Expr::Number(n) => SExpr::Number(n),
        Expr::Variable(name) => SExpr::Variable(name@),
        Expr::Assign { name, value } => SExpr::Assign {
            name: name@,
            value: Box::new(expr_view(*value)),
        },
        Expr::Binary { op, lhs, rhs } => SExpr::Binary {
            op,
            lhs: Box::new(expr_view(*lhs)),
            rhs: Box::new(expr_view(*rhs)),
        },
        Expr::Call { name, args } => SExpr::Call { name: name@, args: exprs_view(args@) },
        Expr::Addr(operand) => SExpr::Addr(Box::new(expr_view(*operand))),
        Expr::Deref(operand) => SExpr::Deref(Box::new(expr_view(*operand))),
    }
}

pub open spec fn exprs_view(s: Seq<Expr>) -> Seq<SExpr>
    decreases s,
{
    if s.len() == 0 {
        seq![]
    } else {
        exprs_view(s.subrange(0, s.len() - 1)).push(expr_view(s[s.len() - 1]))
    }
}

pub open spec fn opt_expr_view(e: Option<Expr>) -> Option<SExpr> {
    match e {
        Some(x) => Some(expr_view(x)),
        None => None,
    }
}

pub open spec fn stmt_view(s: Stmt) -> SStmt
    decreases s,
{
    match s {
        Stmt::Expr(e) => SStmt::Expr(expr_view(e)),
        Stmt::Return(e) => SStmt::Return(expr_view(e)),
        Stmt::Block(b) => SStmt::Block(stmts_view(b.statements@)),
        Stmt::If { condition, then_branch, else_branch } => SStmt::If {
            condition: expr_view(condition),
            then_branch: Box::new(stmt_view(*then_branch)),
            else_branch: match else_branch {
                Some(b) => Some(Box::new(stmt_view(*b))),
                None => None,
            },
        },
        Stmt::While { condition, body } => SStmt::While {
            condition: expr_view(condition),
            body: Box::new(stmt_view(*body)),
        },
        Stmt::For { init, condition, update, body } => SStmt::For {
            init: opt_expr_view(init),
            condition: opt_expr_view(condition),
            update: opt_expr_view(update),
            body: Box::new(stmt_view(*body)),
        },
        Stmt::Decl { var_type, var_name } => SStmt::Decl {
            var_type: var_type@,
            var_name: var_name@,
        },
    }
}

pub open spec fn stmts_view(s: Seq<Stmt>) -> Seq<SStmt>
    decreases s,
{
    if s.len() == 0 {
        seq![]
    } else {
        stmts_view(s.subrange(0, s.len() - 1)).push(stmt_view(s[s.len() - 1]))
    }
}

pub open spec fn names_view(s: Seq<String>) -> Seq<Seq<char>> {
    s.map_values(|n: String| n@)
}

pub open spec fn function_view(f: Function) -> SFunction {
    SFunction { name: f.name@, params: names_view(f.params@), body: stmts_view(f.body.statements@) }
}

pub open spec fn functions_view(s: Seq<Function>) -> Seq<SFunction> {
    s.map_values(|f: Function| function_view(f))
}

impl View for Expr {
    type V = SExpr;

    open spec fn view(&self) -> SExpr {
        expr_view(*self)
    }
}

impl View for Stmt {
    type V = SStmt;

    open spec fn view(&self) -> SStmt {
        stmt_view(*self)
    }
}

impl View for Block {
    type V = Seq<SStmt>;

    open spec fn view(&self) -> Seq<SStmt> {
        stmts_view(self.statements@)
    }
}

impl View for Function {
    type V = SFunction;

    open spec fn view(&self) -> SFunction {
        function_view(*self)
    }
}

impl View for Program {
    type V = Seq<SFunction>;

    open spec fn view(&self) -> Seq<SFunction> {
        functions_view(self.functions@)
    }
}

pub proof fn lemma_exprs_view_push(s: Seq<Expr>, e: Expr)
    ensures
        exprs_view(s.push(e)) == exprs_view(s).push(expr_view(e)),
{
    assert(s.push(e).subrange(0, s.len() as int) =~= s);
}

pub proof fn lemma_stmts_view_push(s: Seq<Stmt>, e: Stmt)
    ensures
        stmts_view(s.push(e)) == stmts_view(s).push(stmt_view(e)),
{
    assert(s.push(e).subrange(0, s.len() as int) =~= s);
}

/// The view of a sequence of expressions is the sequence of their views.
pub proof fn lemma_exprs_view(s: Seq<Expr>)
    ensures
        exprs_view(s).len() == s.len(),
        forall|i: int| 0 <= i < s.len() ==> #[trigger] exprs_view(s)[i] == expr_view(s[i]),
    decreases s.len(),
{
    if s.len() > 0 {
        lemma_exprs_view(s.subrange(0, s.len() - 1));
    }
}

/// The view of a sequence of statements is the sequence of their views.
pub proof fn lemma_stmts_view(s: Seq<Stmt>)
    ensures
        stmts_view(s).len() == s.len(),
        forall|i: int| 0 <= i < s.len() ==> #[trigger] stmts_view(s)[i] == stmt_view(s[i]),
    decreases s.len(),
{
    if s.len() > 0 {
        lemma_stmts_view(s.subrange(0, s.len() - 1));
    }
}

} // verus!
