//! The resolved intermediate representation: functions and variables are
//! referred to by `FunctionId` and `LocalId` instead of by name.
use vstd::prelude::*;

verus! {

/// The index of a function in its program.
#[derive(Clone, Copy, Debug, PartialEq, Eq)]
pub struct FunctionId(pub usize);

/// The index of a local variable (parameter or declared variable) in its function.
#[derive(Clone, Copy, Debug, PartialEq, Eq)]
pub struct LocalId(pub usize);

/// The type of a declared variable; `int` is the only one.
#[derive(Clone, Copy, Debug, PartialEq, Eq)]
pub enum CType {
    Int,
}

#[derive(Clone, Copy, Debug, PartialEq, Eq)]
pub enum BinaryOp {
    Add,
    Sub,
    Mul,
    Div,
    Less,
    LessEqual,
    Equal,
    NotEqual,
}

#[derive(Debug, PartialEq, Eq)]
pub struct Program {
    pub functions: Vec<Function>,
}

#[derive(Debug, PartialEq, Eq)]
pub struct Function {
    pub id: FunctionId,
    pub name: String,
    pub params: Vec<LocalId>,
    pub body: Block,
    pub local_count: usize,
}

#[derive(Debug, PartialEq, Eq)]
pub struct Block {
    pub statements: Vec<Stmt>,
}

#[derive(Debug, PartialEq, Eq)]
pub enum Stmt {
    Expr(Expr),
    Return(Expr),
    Block(Block),
    If { condition: Expr, then_branch: Box<Stmt>, else_branch: Option<Box<Stmt>> },
    While { condition: Expr, body: Box<Stmt> },
    For {
        init: Option<Expr>,
        condition: Option<Expr>,
        update: Option<Expr>,
        body: Box<Stmt>,
    },
    Decl { ctype: CType, target: LocalId },
}

#[derive(Debug, PartialEq, Eq)]
pub enum Expr {
    Number(u64),
    Local(LocalId),
    Assign { target: LocalId, value: Box<Expr> },
    Binary { op: BinaryOp, lhs: Box<Expr>, rhs: Box<Expr> },
    Call { function: FunctionId, args: Vec<Expr> },
    /// The address of a local variable's stack slot.
    Addr(LocalId),
    /// The 64-bit value stored at an address.
    Deref(Box<Expr>),
}

/// The mathematical value of a resolved expression.
pub enum IExpr {
    Number(u64),
    Local(nat),
    Assign { target: nat, value: Box<IExpr> },
    Binary { op: BinaryOp, lhs: Box<IExpr>, rhs: Box<IExpr> },
    Call { function: nat, args: Seq<IExpr> },
    Addr(nat),
    Deref(Box<IExpr>),
}

/// The mathematical value of a resolved statement.
pub enum IStmt {
    Expr(IExpr),
    Return(IExpr),
    Block(Seq<IStmt>),
    If { condition: IExpr, then_branch: Box<IStmt>, else_branch: Option<Box<IStmt>> },
    While { condition: IExpr, body: Box<IStmt> },
    For {
        init: Option<IExpr>,
        condition: Option<IExpr>,
        update: Option<IExpr>,
        body: Box<IStmt>,
    },
    Decl { ctype: CType, target: nat },
}

/// The mathematical value of a resolved function.
pub struct IFunction {
    pub id: nat,
    pub name: Seq<char>,
    pub params: Seq<nat>,
    pub body: Seq<IStmt>,
    pub local_count: nat,
}

pub open spec fn iexpr_view(e: Expr) -> IExpr
    decreases e,
{
    match e {
        Expr::Number(n) => IExpr::Number(n),
        Expr::Local(l) => IExpr::Local(l.0 as nat),
        Expr::Assign { target, value } => IExpr::Assign {
            target: target.0 as nat,
            value: Box::new(iexpr_view(*value)),
        },
        Expr::Binary { op, lhs, rhs } => IExpr::Binary {
            op,
            lhs: Box::new(iexpr_view(*lhs)),
            rhs: Box::new(iexpr_view(*rhs)),
        },
        Expr::Call { function, args } => IExpr::Call {
            function: function.0 as nat,
            args: iexprs_view(args@),
        },
        Expr::Addr(l) => IExpr::Addr(l.0 as nat),
        Expr::Deref(operand) => IExpr::Deref(Box::new(iexpr_view(*operand))),
    }
}

pub open spec fn iexprs_view(s: Seq<Expr>) -> Seq<IExpr>
    decreases s,
{
    if s.len() == 0 {
        seq![]
    } else {
        iexprs_view(s.subrange(0, s.len() - 1)).push(iexpr_view(s[s.len() - 1]))
    }
}

pub open spec fn opt_iexpr_view(e: Option<Expr>) -> Option<IExpr> {
    match e {
        Some(x) => Some(iexpr_view(x)),
        None => None,
    }
}

pub open spec fn istmt_view(s: Stmt) -> IStmt
    decreases s,
{
    match s {
        Stmt::Expr(e) => IStmt::Expr(iexpr_view(e)),
        Stmt::Return(e) => IStmt::Return(iexpr_view(e)),
        Stmt::Block(b) => IStmt::Block(istmts_view(b.statements@)),
        Stmt::If { condition, then_branch, else_branch } => IStmt::If {
            condition: iexpr_view(condition),
            then_branch: Box::new(istmt_view(*then_branch)),
            else_branch: match else_branch {
                Some(b) => Some(Box::new(istmt_view(*b))),
                None => None,
            },
        },
        Stmt::While { condition, body } => IStmt::While {
            condition: iexpr_view(condition),
            body: Box::new(istmt_view(*body)),
        },
        Stmt::For { init, condition, update, body } => IStmt::For {
            init: opt_iexpr_view(init),
            condition: opt_iexpr_view(condition),
            update: opt_iexpr_view(update),
            body: Box::new(istmt_view(*body)),
        },
        Stmt::Decl { ctype, target } => IStmt::Decl { ctype, target: target.0 as nat },
    }
}

pub open spec fn istmts_view(s: Seq<Stmt>) -> Seq<IStmt>
    decreases s,
{
    if s.len() == 0 {
        seq![]
    } else {
        istmts_view(s.subrange(0, s.len() - 1)).push(istmt_view(s[s.len() - 1]))
    }
}

pub open spec fn locals_view(s: Seq<LocalId>) -> Seq<nat> {
    s.map_values(|l: LocalId| l.0 as nat)
}

pub open spec fn ifunction_view(f: Function) -> IFunction {
    IFunction {
        id: f.id.0 as nat,
        name: f.name@,
        params: locals_view(f.params@),
        body: istmts_view(f.body.statements@),
        local_count: f.local_count as nat,
    }
}

pub open spec fn ifunctions_view(s: Seq<Function>) -> Seq<IFunction> {
    s.map_values(|f: Function| ifunction_view(f))
}

impl View for Expr {
    type V = IExpr;

    open spec fn view(&self) -> IExpr {
        iexpr_view(*self)
    }
}

impl View for Stmt {
    type V = IStmt;

    open spec fn view(&self) -> IStmt {
        istmt_view(*self)
    }
}

impl View for Block {
    type V = Seq<IStmt>;

    open spec fn view(&self) -> Seq<IStmt> {
        istmts_view(self.statements@)
    }
}

impl View for Function {
    type V = IFunction;

    open spec fn view(&self) -> IFunction {
        ifunction_view(*self)
    }
}

impl View for Program {
    type V = Seq<IFunction>;

    open spec fn view(&self) -> Seq<IFunction> {
        ifunctions_view(self.functions@)
    }
}

pub proof fn lemma_iexprs_view_push(s: Seq<Expr>, e: Expr)
    ensures
        iexprs_view(s.push(e)) == iexprs_view(s).push(iexpr_view(e)),
{
    assert(s.push(e).subrange(0, s.len() as int) =~= s);
}

pub proof fn lemma_istmts_view_push(s: Seq<Stmt>, e: Stmt)
    ensures
        istmts_view(s.push(e)) == istmts_view(s).push(istmt_view(e)),
{
    assert(s.push(e).subrange(0, s.len() as int) =~= s);
}

/// The view of a sequence of expressions is the sequence of their views.
pub proof fn lemma_iexprs_view(s: Seq<Expr>)
    ensures
        iexprs_view(s).len() == s.len(),
        forall|i: int| 0 <= i < s.len() ==> #[trigger] iexprs_view(s)[i] == iexpr_view(s[i]),
    decreases s.len(),
{
    if s.len() > 0 {
        lemma_iexprs_view(s.subrange(0, s.len() - 1));
    }
}

/// The view of a sequence of statements is the sequence of their views.
pub proof fn lemma_istmts_view(s: Seq<Stmt>)
    ensures
        istmts_view(s).len() == s.len(),
        forall|i: int| 0 <= i < s.len() ==> #[trigger] istmts_view(s)[i] == istmt_view(s[i]),
    decreases s.len(),
{
    if s.len() > 0 {
        lemma_istmts_view(s.subrange(0, s.len() - 1));
    }
}

/// The number of statements in a statement, itself included.
pub open spec fn istmt_size(s: IStmt) -> nat
    decreases s,
{
    match s {
        IStmt::Block(b) => 1 + istmts_size(b),
        IStmt::If { then_branch, else_branch, .. } => 1 + istmt_size(*then_branch) + match else_branch {
            Some(e) => istmt_size(*e),
            None => 0,
        },
        IStmt::While { body, .. } => 1 + istmt_size(*body),
        IStmt::For { body, .. } => 1 + istmt_size(*body),
        _ => 1,
    }
}

/// The number of statements in a sequence of statements, nested ones included.
pub open spec fn istmts_size(b: Seq<IStmt>) -> nat
    decreases b,
{
    if b.len() == 0 {
        0
    } else {
        istmts_size(b.subrange(0, b.len() - 1)) + istmt_size(b[b.len() - 1])
    }
}

/// The most locals, and the most statements, a function may have: the frame
/// arithmetic of code generation (eight bytes a slot) stays within `usize`.
pub open spec fn max_locals() -> nat {
    (usize::MAX / 16) as nat
}

/// Every function id in `e` is below `nf` and every local id below `nl`.
pub open spec fn iexpr_wf(e: IExpr, nf: nat, nl: nat) -> bool
    decreases e,
{
    match e {
        IExpr::Number(_) => true,
        IExpr::Local(l) => l < nl,
        IExpr::Assign { target, value } => target < nl && iexpr_wf(*value, nf, nl),
        IExpr::Binary { lhs, rhs, .. } => iexpr_wf(*lhs, nf, nl) && iexpr_wf(*rhs, nf, nl),
        IExpr::Call { function, args } => function < nf && iexprs_wf(args, nf, nl),
        IExpr::Addr(l) => l < nl,
        IExpr::Deref(operand) => iexpr_wf(*operand, nf, nl),
    }
}

pub open spec fn iexprs_wf(s: Seq<IExpr>, nf: nat, nl: nat) -> bool
    decreases s,
{
    if s.len() == 0 {
        true
    } else {
        iexprs_wf(s.subrange(0, s.len() - 1), nf, nl) && iexpr_wf(s[s.len() - 1], nf, nl)
    }
}

pub open spec fn opt_iexpr_wf(e: Option<IExpr>, nf: nat, nl: nat) -> bool {
    match e {
        Some(x) => iexpr_wf(x, nf, nl),
        None => true,
    }
}

/// Every function id in `s` is below `nf` and every local id below `nl`.
pub open spec fn istmt_wf(s: IStmt, nf: nat, nl: nat) -> bool
    decreases s,
{
    match s {
        IStmt::Expr(e) => iexpr_wf(e, nf, nl),
        IStmt::Return(e) => iexpr_wf(e, nf, nl),
        IStmt::Block(b) => istmts_wf(b, nf, nl),
        IStmt::If { condition, then_branch, else_branch } => iexpr_wf(condition, nf, nl) && istmt_wf(*then_branch, nf, nl)
            && match else_branch {
            Some(e) => istmt_wf(*e, nf, nl),
            None => true,
        },
        IStmt::While { condition, body } => iexpr_wf(condition, nf, nl) && istmt_wf(*body, nf, nl),
        IStmt::For { init, condition, update, body } => opt_iexpr_wf(init, nf, nl) && opt_iexpr_wf(condition, nf, nl)
            && opt_iexpr_wf(update, nf, nl) && istmt_wf(*body, nf, nl),
        IStmt::Decl { target, .. } => target < nl,
    }
}

pub open spec fn istmts_wf(b: Seq<IStmt>, nf: nat, nl: nat) -> bool
    decreases b,
{
    if b.len() == 0 {
        true
    } else {
        istmts_wf(b.subrange(0, b.len() - 1), nf, nl) && istmt_wf(b[b.len() - 1], nf, nl)
    }
}

/// A bound on local ids that holds for `nl` holds for every larger `nl`.
pub proof fn lemma_iexpr_wf_mono(e: IExpr, nf: nat, nl: nat, m: nat)
    requires
        iexpr_wf(e, nf, nl),
        nl <= m,
    ensures
        iexpr_wf(e, nf, m),
    decreases e, 1int,
{
    match e {
        IExpr::Assign { value, .. } => lemma_iexpr_wf_mono(*value, nf, nl, m),
        IExpr::Binary { lhs, rhs, .. } => {
            lemma_iexpr_wf_mono(*lhs, nf, nl, m);
            lemma_iexpr_wf_mono(*rhs, nf, nl, m);
        },
        IExpr::Call { args, .. } => lemma_iexprs_wf_mono(args, nf, nl, m),
        IExpr::Deref(operand) => lemma_iexpr_wf_mono(*operand, nf, nl, m),
        _ => {},
    }
}

pub proof fn lemma_iexprs_wf_mono(s: Seq<IExpr>, nf: nat, nl: nat, m: nat)
    requires
        iexprs_wf(s, nf, nl),
        nl <= m,
    ensures
        iexprs_wf(s, nf, m),
    decreases s, 0int,
{
    if s.len() > 0 {
        lemma_iexprs_wf_mono(s.subrange(0, s.len() - 1), nf, nl, m);
        lemma_iexpr_wf_mono(s[s.len() - 1], nf, nl, m);
    }
}

pub proof fn lemma_opt_iexpr_wf_mono(e: Option<IExpr>, nf: nat, nl: nat, m: nat)
    requires
        opt_iexpr_wf(e, nf, nl),
        nl <= m,
    ensures
        opt_iexpr_wf(e, nf, m),
{
    if let Some(x) = e {
        lemma_iexpr_wf_mono(x, nf, nl, m);
    }
}

pub proof fn lemma_istmt_wf_mono(s: IStmt, nf: nat, nl: nat, m: nat)
    requires
        istmt_wf(s, nf, nl),
        nl <= m,
    ensures
        istmt_wf(s, nf, m),
    decreases s, 1int,
{
    match s {
        IStmt::Expr(e) => lemma_iexpr_wf_mono(e, nf, nl, m),
        IStmt::Return(e) => lemma_iexpr_wf_mono(e, nf, nl, m),
        IStmt::Block(b) => lemma_istmts_wf_mono(b, nf, nl, m),
        IStmt::If { condition, then_branch, else_branch } => {
            lemma_iexpr_wf_mono(condition, nf, nl, m);
            lemma_istmt_wf_mono(*then_branch, nf, nl, m);
            if let Some(e) = else_branch {
                lemma_istmt_wf_mono(*e, nf, nl, m);
            }
        },
        IStmt::While { condition, body } => {
            lemma_iexpr_wf_mono(condition, nf, nl, m);
            lemma_istmt_wf_mono(*body, nf, nl, m);
        },
        IStmt::For { init, condition, update, body } => {
            lemma_opt_iexpr_wf_mono(init, nf, nl, m);
            lemma_opt_iexpr_wf_mono(condition, nf, nl, m);
            lemma_opt_iexpr_wf_mono(update, nf, nl, m);
            lemma_istmt_wf_mono(*body, nf, nl, m);
        },
        IStmt::Decl { .. } => {},
    }
}

pub proof fn lemma_istmts_wf_mono(b: Seq<IStmt>, nf: nat, nl: nat, m: nat)
    requires
        istmts_wf(b, nf, nl),
        nl <= m,
    ensures
        istmts_wf(b, nf, m),
    decreases b, 0int,
{
    if b.len() > 0 {
        lemma_istmts_wf_mono(b.subrange(0, b.len() - 1), nf, nl, m);
        lemma_istmt_wf_mono(b[b.len() - 1], nf, nl, m);
    }
}

/// The bound on local ids that the frame arithmetic can address: every local
/// id is at most `max_locals()`.
pub open spec fn local_id_bound() -> nat {
    max_locals() + 1
}

/// A function of a program with `nf` functions can be compiled: every function
/// it calls exists, and its locals, statements and local ids are few enough for
/// the frame and label arithmetic.
pub open spec fn ifunction_wf(f: IFunction, nf: nat) -> bool {
    &&& f.local_count <= max_locals()
    &&& istmts_size(f.body) <= max_locals()
    &&& forall|i: int| 0 <= i < f.params.len() ==> #[trigger] f.params[i] < local_id_bound()
    &&& istmts_wf(f.body, nf, local_id_bound())
}

/// Every function of the program can be compiled.
pub open spec fn program_wf(p: Seq<IFunction>) -> bool {
    forall|i: int| 0 <= i < p.len() ==> ifunction_wf(#[trigger] p[i], p.len())
}

/// Every local id that a function names, its parameters included, is one of
/// its `local_count` locals, so that every slot lies inside its frame.
pub open spec fn ifunction_locals_in_frame(f: IFunction, nf: nat) -> bool {
    &&& forall|i: int| 0 <= i < f.params.len() ==> #[trigger] f.params[i] < f.local_count
    &&& istmts_wf(f.body, nf, f.local_count)
}

} // verus!
