//! Semantic analysis: resolves function names to `FunctionId`s and scoped
//! variable names to `LocalId`s, and rejects programs that use a name that is
//! not in scope.
use vstd::prelude::*;
use crate::ast::{self, SExpr, SFunction, SStmt};
use crate::ir::{self, CType, IExpr, IFunction, IStmt, max_locals};
use crate::text::decimal;

verus! {

/// The most arguments a call, and the most parameters a function, may have.
pub const MAX_ARGUMENTS: usize = 8;

/// One scope: the names declared in it, with their local ids, in declaration order.
pub type SpecScope = Seq<(Seq<char>, nat)>;

/// The state of resolution inside a function: the open scopes, innermost
/// last, and the next free local id.
pub struct RState {
    pub scopes: Seq<SpecScope>,
    pub next: nat,
}

/// The signatures of a program's functions: name and number of parameters,
/// indexed by function id.
pub type Sigs = Seq<(Seq<char>, nat)>;

/// The first index at or after `from` whose name is `name`.
pub open spec fn index_of_name(names: Seq<Seq<char>>, name: Seq<char>, from: int) -> Option<nat>
    decreases names.len() - from,
{
    if from < 0 || from >= names.len() {
        None
    } else if names[from] == name {
        Some(from as nat)
    } else {
        index_of_name(names, name, from + 1)
    }
}

/// The local id that `name` has in one scope, if it is declared there.
pub open spec fn scope_lookup(scope: SpecScope, name: Seq<char>, from: int) -> Option<nat>
    decreases scope.len() - from,
{
    if from < 0 || from >= scope.len() {
        None
    } else if scope[from].0 == name {
        Some(scope[from].1)
    } else {
        scope_lookup(scope, name, from + 1)
    }
}

/// The local id that `name` refers to: its declaration in the innermost scope
/// that declares it.
pub open spec fn find_local(scopes: Seq<SpecScope>, name: Seq<char>) -> Option<nat>
    decreases scopes.len(),
{
    if scopes.len() == 0 {
        None
    } else {
        match scope_lookup(scopes[scopes.len() - 1], name, 0) {
            Some(l) => Some(l),
            None => find_local(scopes.subrange(0, scopes.len() - 1), name),
        }
    }
}

pub open spec fn sig_names(sigs: Sigs) -> Seq<Seq<char>> {
    sigs.map_values(|s: (Seq<char>, nat)| s.0)
}

pub open spec fn quoted(name: Seq<char>) -> Seq<char> {
    "'"@ + name + "'"@
}

pub open spec fn undefined_variable(name: Seq<char>) -> Seq<char> {
    "undefined variable: "@ + quoted(name)
}

pub open spec fn not_declared(name: Seq<char>) -> Seq<char> {
    quoted(name) + " is not declared in this scope."@
}

pub open spec fn already_declared(name: Seq<char>) -> Seq<char> {
    quoted(name) + " is already declared in this scope."@
}

pub open spec fn invalid_type(name: Seq<char>) -> Seq<char> {
    "invalid data type: "@ + quoted(name)
}

pub open spec fn addr_of_non_variable() -> Seq<char> {
    "operand of '&' must be a variable"@
}

pub open spec fn too_many_arguments(name: Seq<char>, n: nat) -> Seq<char> {
    "call to "@ + quoted(name) + " has "@ + decimal(n) + " arguments; at most 8 are supported"@
}

pub open spec fn undefined_function(name: Seq<char>) -> Seq<char> {
    "call to undefined function: "@ + quoted(name)
}

pub open spec fn wrong_arity(name: Seq<char>, n: nat, m: nat) -> Seq<char> {
    "call to "@ + quoted(name) + " has "@ + decimal(n) + " arguments but "@ + decimal(m) + " are required"@
}

pub open spec fn too_many_parameters(name: Seq<char>, n: nat) -> Seq<char> {
    "function "@ + quoted(name) + " has "@ + decimal(n) + " parameters; at most 8 are supported"@
}

pub open spec fn duplicate_function(name: Seq<char>) -> Seq<char> {
    "duplicate function definition: "@ + quoted(name)
}

pub open spec fn duplicate_parameter(name: Seq<char>, function: Seq<char>) -> Seq<char> {
    "duplicate parameter "@ + quoted(name) + " in function "@ + quoted(function)
}

pub open spec fn missing_main() -> Seq<char> {
    "program must define main()"@
}

pub open spec fn main_with_parameters() -> Seq<char> {
    "main must have zero parameters"@
}

pub open spec fn ir_binary_op(op: ast::BinaryOp) -> ir::BinaryOp {
    match op {
        ast::BinaryOp::Add => ir::BinaryOp::Add,
        ast::BinaryOp::Sub => ir::BinaryOp::Sub,
        ast::BinaryOp::Mul => ir::BinaryOp::Mul,
        ast::BinaryOp::Div => ir::BinaryOp::Div,
        ast::BinaryOp::Less => ir::BinaryOp::Less,
        ast::BinaryOp::LessEqual => ir::BinaryOp::LessEqual,
        ast::BinaryOp::Equal => ir::BinaryOp::Equal,
        ast::BinaryOp::NotEqual => ir::BinaryOp::NotEqual,
    }
}

/// Resolution of an expression in the given scopes.
pub open spec fn resolve_expr_spec(sigs: Sigs, scopes: Seq<SpecScope>, e: SExpr) -> Result<IExpr, Seq<char>>
    decreases e,
{
    match e {
        SExpr::Number(n) => Ok(IExpr::Number(n)),
        SExpr::Variable(name) => match find_local(scopes, name) {
            Some(l) => Ok(IExpr::Local(l)),
            None => Err(undefined_variable(name)),
        },
        SExpr::Assign { name, value } => match resolve_expr_spec(sigs, scopes, *value) {
            Ok(v) => match find_local(scopes, name) {
                Some(l) => Ok(IExpr::Assign { target: l, value: Box::new(v) }),
                None => Err(not_declared(name)),
            },
            Err(m) => Err(m),
        },
        SExpr::Binary { op, lhs, rhs } => match resolve_expr_spec(sigs, scopes, *lhs) {
            Ok(l) => match resolve_expr_spec(sigs, scopes, *rhs) {
                Ok(r) => Ok(IExpr::Binary { op: ir_binary_op(op), lhs: Box::new(l), rhs: Box::new(r) }),
                Err(m) => Err(m),
            },
            Err(m) => Err(m),
        },
        SExpr::Call { name, args } => if args.len() > 8 {
            Err(too_many_arguments(name, args.len()))
        } else {
            match index_of_name(sig_names(sigs), name, 0) {
                None => Err(undefined_function(name)),
                Some(id) => if args.len() != sigs[id as int].1 {
                    Err(wrong_arity(name, args.len(), sigs[id as int].1))
                } else {
                    match resolve_args_spec(sigs, scopes, args) {
                        Ok(a) => Ok(IExpr::Call { function: id, args: a }),
                        Err(m) => Err(m),
                    }
                },
            }
        },
        SExpr::Addr(operand) => match *operand {
            SExpr::Variable(name) => match find_local(scopes, name) {
                Some(l) => Ok(IExpr::Addr(l)),
                None => Err(undefined_variable(name)),
            },
            _ => Err(addr_of_non_variable()),
        },
        SExpr::Deref(operand) => match resolve_expr_spec(sigs, scopes, *operand) {
            Ok(x) => Ok(IExpr::Deref(Box::new(x))),
            Err(m) => Err(m),
        },
    }
}

/// Resolution of call arguments, left to right; the first error wins.
pub open spec fn resolve_args_spec(sigs: Sigs, scopes: Seq<SpecScope>, args: Seq<SExpr>) -> Result<Seq<IExpr>, Seq<char>>
    decreases args,
{
    if args.len() == 0 {
        Ok(seq![])
    } else {
        match resolve_args_spec(sigs, scopes, args.subrange(0, args.len() - 1)) {
            Ok(prefix) => match resolve_expr_spec(sigs, scopes, args[args.len() - 1]) {
                Ok(a) => Ok(prefix.push(a)),
                Err(m) => Err(m),
            },
            Err(m) => Err(m),
        }
    }
}

pub open spec fn resolve_opt_spec(sigs: Sigs, scopes: Seq<SpecScope>, e: Option<SExpr>) -> Result<Option<IExpr>, Seq<char>> {
    match e {
        Some(x) => match resolve_expr_spec(sigs, scopes, x) {
            Ok(r) => Ok(Some(r)),
            Err(m) => Err(m),
        },
        None => Ok(None),
    }
}

/// The state with a new, empty innermost scope.
pub open spec fn push_scope(st: RState) -> RState {
    RState { scopes: st.scopes.push(seq![]), next: st.next }
}

/// The state with the innermost scope closed.
pub open spec fn pop_scope(st: RState) -> RState {
    RState { scopes: st.scopes.subrange(0, st.scopes.len() - 1), next: st.next }
}

/// The state after `name` is declared in the innermost scope with the next free id.
pub open spec fn define(st: RState, name: Seq<char>) -> RState {
    RState {
        scopes: st.scopes.update(st.scopes.len() - 1, st.scopes[st.scopes.len() - 1].push((name, st.next))),
        next: st.next + 1,
    }
}

/// Resolution of a statement in state `st`: the resolved statement and the state after it.
pub open spec fn resolve_stmt_spec(sigs: Sigs, st: RState, s: SStmt) -> Result<(IStmt, RState), Seq<char>>
    decreases s, 0int,
{
    match s {
        SStmt::Expr(e) => match resolve_expr_spec(sigs, st.scopes, e) {
            Ok(x) => Ok((IStmt::Expr(x), st)),
            Err(m) => Err(m),
        },
        SStmt::Return(e) => match resolve_expr_spec(sigs, st.scopes, e) {
            Ok(x) => Ok((IStmt::Return(x), st)),
            Err(m) => Err(m),
        },
        SStmt::Block(b) => match resolve_block_spec(sigs, st, b) {
            Ok((bb, st2)) => Ok((IStmt::Block(bb), st2)),
            Err(m) => Err(m),
        },
        SStmt::If { condition, then_branch, else_branch } => match resolve_expr_spec(sigs, st.scopes, condition) {
            Ok(c) => match resolve_stmt_spec(sigs, st, *then_branch) {
                Ok((t, st1)) => match else_branch {
                    Some(e) => match resolve_stmt_spec(sigs, st1, *e) {
                        Ok((el, st2)) => Ok((IStmt::If { condition: c, then_branch: Box::new(t), else_branch: Some(Box::new(el)) }, st2)),
                        Err(m) => Err(m),
                    },
                    None => Ok((IStmt::If { condition: c, then_branch: Box::new(t), else_branch: None }, st1)),
                },
                Err(m) => Err(m),
            },
            Err(m) => Err(m),
        },
        SStmt::While { condition, body } => match resolve_expr_spec(sigs, st.scopes, condition) {
            Ok(c) => match resolve_stmt_spec(sigs, st, *body) {
                Ok((b, st1)) => Ok((IStmt::While { condition: c, body: Box::new(b) }, st1)),
                Err(m) => Err(m),
            },
            Err(m) => Err(m),
        },
        SStmt::For { init, condition, update, body } => {
            let inner = push_scope(st);
            match resolve_opt_spec(sigs, inner.scopes, init) {
                Ok(i) => match resolve_opt_spec(sigs, inner.scopes, condition) {
                    Ok(c) => match resolve_opt_spec(sigs, inner.scopes, update) {
                        Ok(u) => match resolve_stmt_spec(sigs, inner, *body) {
                            Ok((b, st1)) => Ok((
                                IStmt::For { init: i, condition: c, update: u, body: Box::new(b) },
                                pop_scope(st1),
                            )),
                            Err(m) => Err(m),
                        },
                        Err(m) => Err(m),
                    },
                    Err(m) => Err(m),
                },
                Err(m) => Err(m),
            }
        },
        SStmt::Decl { var_type, var_name } => if var_type != "int"@ {
            Err(invalid_type(var_type))
        } else if scope_lookup(st.scopes[st.scopes.len() - 1], var_name, 0) is Some {
            Err(already_declared(var_name))
        } else {
            Ok((IStmt::Decl { ctype: CType::Int, target: st.next }, define(st, var_name)))
        },
    }
}

/// Resolution of a block: its statements in a new scope, which is closed after them.
pub open spec fn resolve_block_spec(sigs: Sigs, st: RState, b: Seq<SStmt>) -> Result<(Seq<IStmt>, RState), Seq<char>>
    decreases b, 1int,
{
    match resolve_stmts_spec(sigs, push_scope(st), b) {
        Ok((bb, st1)) => Ok((bb, pop_scope(st1))),
        Err(m) => Err(m),
    }
}

/// Resolution of statements in order, each in the state the previous one left.
pub open spec fn resolve_stmts_spec(sigs: Sigs, st: RState, b: Seq<SStmt>) -> Result<(Seq<IStmt>, RState), Seq<char>>
    decreases b, 0int,
{
    if b.len() == 0 {
        Ok((seq![], st))
    } else {
        match resolve_stmts_spec(sigs, st, b.subrange(0, b.len() - 1)) {
            Ok((prefix, st1)) => match resolve_stmt_spec(sigs, st1, b[b.len() - 1]) {
                Ok((s, st2)) => Ok((prefix.push(s), st2)),
                Err(m) => Err(m),
            },
            Err(m) => Err(m),
        }
    }
}

/// The scope of the parameters of function `f`, taking its first `n` parameters:
/// parameter `i` gets local id `i`.
pub open spec fn params_scope_spec(f: SFunction, n: int) -> Result<SpecScope, Seq<char>>
    decreases n,
{
    if n <= 0 {
        Ok(seq![])
    } else {
        match params_scope_spec(f, n - 1) {
            Ok(scope) => if scope_lookup(scope, f.params[n - 1], 0) is Some {
                Err(duplicate_parameter(f.params[n - 1], f.name))
            } else {
                Ok(scope.push((f.params[n - 1], (n - 1) as nat)))
            },
            Err(m) => Err(m),
        }
    }
}

/// Resolution of function `f`, whose id is `id`.
pub open spec fn resolve_function_spec(sigs: Sigs, id: nat, f: SFunction) -> Result<IFunction, Seq<char>> {
    match params_scope_spec(f, f.params.len() as int) {
        Ok(scope) => match resolve_block_spec(sigs, RState { scopes: seq![scope], next: f.params.len() }, f.body) {
            Ok((body, st)) => Ok(IFunction {
                id,
                name: f.name,
                params: Seq::new(f.params.len(), |i: int| i as nat),
                body,
                local_count: st.next,
            }),
            Err(m) => Err(m),
        },
        Err(m) => Err(m),
    }
}

/// The first error among the signatures of the first `n` functions: too many
/// parameters, or a name that an earlier function has.
pub open spec fn signature_error(fs: Seq<SFunction>, n: int) -> Option<Seq<char>>
    decreases n,
{
    if n <= 0 {
        None
    } else {
        match signature_error(fs, n - 1) {
            Some(m) => Some(m),
            None => if fs[n - 1].params.len() > 8 {
                Some(too_many_parameters(fs[n - 1].name, fs[n - 1].params.len()))
            } else if exists|j: int| 0 <= j < n - 1 && #[trigger] fs[j].name == fs[n - 1].name {
                Some(duplicate_function(fs[n - 1].name))
            } else {
                None
            },
        }
    }
}

/// The signatures of a program's functions.
pub open spec fn sigs_of(fs: Seq<SFunction>) -> Sigs {
    fs.map_values(|f: SFunction| (f.name, f.params.len()))
}

/// Resolution of the first `n` functions.
pub open spec fn resolve_functions_spec(sigs: Sigs, fs: Seq<SFunction>, n: int) -> Result<Seq<IFunction>, Seq<char>>
    decreases n,
{
    if n <= 0 {
        Ok(seq![])
    } else {
        match resolve_functions_spec(sigs, fs, n - 1) {
            Ok(prefix) => match resolve_function_spec(sigs, (n - 1) as nat, fs[n - 1]) {
                Ok(f) => Ok(prefix.push(f)),
                Err(m) => Err(m),
            },
            Err(m) => Err(m),
        }
    }
}

/// Semantic analysis of a program: the checks on signatures, then on `main`,
/// then the resolution of every function in order.
pub open spec fn analyze_spec(fs: Seq<SFunction>) -> Result<Seq<IFunction>, Seq<char>> {
    match signature_error(fs, fs.len() as int) {
        Some(m) => Err(m),
        None => match index_of_name(sig_names(sigs_of(fs)), "main"@, 0) {
            None => Err(missing_main()),
            Some(i) => if fs[i as int].params.len() != 0 {
                Err(main_with_parameters())
            } else {
                resolve_functions_spec(sigs_of(fs), fs, fs.len() as int)
            },
        },
    }
}

/// The number of variable declarations in a statement.
pub open spec fn decls_stmt(s: SStmt) -> nat
    decreases s,
{
    match s {
        SStmt::Decl { .. } => 1,
        SStmt::Block(b) => decls(b),
        SStmt::If { then_branch, else_branch, .. } => decls_stmt(*then_branch) + match else_branch {
            Some(e) => decls_stmt(*e),
            None => 0,
        },
        SStmt::While { body, .. } => decls_stmt(*body),
        SStmt::For { body, .. } => decls_stmt(*body),
        _ => 0,
    }
}

/// The number of variable declarations in a sequence of statements.
pub open spec fn decls(b: Seq<SStmt>) -> nat
    decreases b,
{
    if b.len() == 0 {
        0
    } else {
        decls(b.subrange(0, b.len() - 1)) + decls_stmt(b[b.len() - 1])
    }
}

/// The number of statements in a statement, itself included.
pub open spec fn stmt_size(s: SStmt) -> nat
    decreases s,
{
    match s {
        SStmt::Block(b) => 1 + stmts_size(b),
        SStmt::If { then_branch, else_branch, .. } => 1 + stmt_size(*then_branch) + match else_branch {
            Some(e) => stmt_size(*e),
            None => 0,
        },
        SStmt::While { body, .. } => 1 + stmt_size(*body),
        SStmt::For { body, .. } => 1 + stmt_size(*body),
        _ => 1,
    }
}

/// The number of statements in a sequence of statements, nested ones included.
pub open spec fn stmts_size(b: Seq<SStmt>) -> nat
    decreases b,
{
    if b.len() == 0 {
        0
    } else {
        stmts_size(b.subrange(0, b.len() - 1)) + stmt_size(b[b.len() - 1])
    }
}

/// Whether a function is small enough for the machine: its parameters and
/// statements together stay under `max_locals()`.
pub open spec fn function_within_limits(f: SFunction) -> bool {
    f.params.len() + stmts_size(f.body) <= max_locals()
}

/// Whether every function of a program is within the limits.
pub open spec fn within_limits(fs: Seq<SFunction>) -> bool {
    forall|i: int| 0 <= i < fs.len() ==> function_within_limits(#[trigger] fs[i])
}

/// The size limit is a machine limit only: whatever the width of `usize`
/// (32 or 64 bits), every function with at most 268435455 (2^28 - 1)
/// parameters and statements together is within it, and so is every program
/// made of such functions.
pub proof fn small_programs_are_within_limits(fs: Seq<SFunction>)
    ensures
        forall|f: SFunction| f.params.len() + stmts_size(f.body) <= 268435455 ==> #[trigger] function_within_limits(f),
        (forall|i: int| 0 <= i < fs.len() ==> (#[trigger] fs[i]).params.len() + stmts_size(fs[i].body) <= 268435455)
            ==> within_limits(fs),
{
    assert(max_locals() >= 268435455);
}

/// Declarations are statements.
pub proof fn lemma_decls_le_size(b: Seq<SStmt>)
    ensures
        decls(b) <= stmts_size(b),
    decreases b, 1int,
{
    if b.len() > 0 {
        lemma_decls_le_size(b.subrange(0, b.len() - 1));
        lemma_decls_stmt_le_size(b[b.len() - 1]);
    }
}

/// Declarations are statements.
pub proof fn lemma_decls_stmt_le_size(s: SStmt)
    ensures
        decls_stmt(s) <= stmt_size(s),
    decreases s, 0int,
{
    match s {
        SStmt::Block(b) => lemma_decls_le_size(b),
        SStmt::If { then_branch, else_branch, .. } => {
            lemma_decls_stmt_le_size(*then_branch);
            match else_branch {
                Some(e) => lemma_decls_stmt_le_size(*e),
                None => {},
            }
        },
        SStmt::While { body, .. } => lemma_decls_stmt_le_size(*body),
        SStmt::For { body, .. } => lemma_decls_stmt_le_size(*body),
        _ => {},
    }
}

/// What resolving one statement does to the state: every declaration takes the
/// next local id, only the innermost scope gains names, a block or a `for`
/// statement leaves the scopes as they were (what is declared in it is not
/// visible after it), and the resolved statement has as many statements as the
/// source one.
pub proof fn lemma_resolve_stmt(sigs: Sigs, st: RState, s: SStmt)
    requires
        st.scopes.len() >= 1,
    ensures
        resolve_stmt_spec(sigs, st, s) matches Ok((is, st2)) ==> {
            &&& st2.next == st.next + decls_stmt(s)
            &&& st2.scopes.len() == st.scopes.len()
            &&& st2.scopes.subrange(0, st.scopes.len() - 1) == st.scopes.subrange(0, st.scopes.len() - 1)
            &&& (s is Block || s is For) ==> st2.scopes == st.scopes
            &&& crate::ir::istmt_size(is) == stmt_size(s)
        },
    decreases s, 0int,
{
    match s {
        SStmt::Block(b) => {
            lemma_resolve_block(sigs, st, b);
        },
        SStmt::If { condition, then_branch, else_branch } => {
            lemma_resolve_stmt(sigs, st, *then_branch);
            if let Ok((_, st1)) = resolve_stmt_spec(sigs, st, *then_branch) {
                match else_branch {
                    Some(e) => {
                        lemma_resolve_stmt(sigs, st1, *e);
                        if let Ok((_, st2)) = resolve_stmt_spec(sigs, st1, *e) {
                            assert(st2.scopes.subrange(0, st.scopes.len() - 1) =~= st.scopes.subrange(0, st.scopes.len() - 1));
                        }
                    },
                    None => {},
                }
            }
        },
        SStmt::While { condition, body } => {
            lemma_resolve_stmt(sigs, st, *body);
        },
        SStmt::For { init, condition, update, body } => {
            let inner = push_scope(st);
            lemma_resolve_stmt(sigs, inner, *body);
            if let Ok((_, st1)) = resolve_stmt_spec(sigs, inner, *body) {
                assert(pop_scope(st1).scopes =~= st.scopes);
            }
        },
        SStmt::Decl { var_type, var_name } => {
            assert(define(st, var_name).scopes.subrange(0, st.scopes.len() - 1) =~= st.scopes.subrange(0, st.scopes.len() - 1));
        },
        _ => {},
    }
}

/// A block gives back the scopes it started with: the names declared in it are
/// not visible after it.
pub proof fn lemma_resolve_block(sigs: Sigs, st: RState, b: Seq<SStmt>)
    requires
        st.scopes.len() >= 1,
    ensures
        resolve_block_spec(sigs, st, b) matches Ok((ib, st2)) ==> {
            &&& st2.next == st.next + decls(b)
            &&& st2.scopes == st.scopes
            &&& crate::ir::istmts_size(ib) == stmts_size(b)
        },
    decreases b, 1int,
{
    let inner = push_scope(st);
    lemma_resolve_stmts(sigs, inner, b);
    if let Ok((_, st1)) = resolve_stmts_spec(sigs, inner, b) {
        assert(pop_scope(st1).scopes =~= st.scopes);
    }
}

/// Resolving statements in order keeps every scope but the innermost.
pub proof fn lemma_resolve_stmts(sigs: Sigs, st: RState, b: Seq<SStmt>)
    requires
        st.scopes.len() >= 1,
    ensures
        resolve_stmts_spec(sigs, st, b) matches Ok((ib, st2)) ==> {
            &&& st2.next == st.next + decls(b)
            &&& st2.scopes.len() == st.scopes.len()
            &&& st2.scopes.subrange(0, st.scopes.len() - 1) == st.scopes.subrange(0, st.scopes.len() - 1)
            &&& crate::ir::istmts_size(ib) == stmts_size(b)
        },
    decreases b, 0int,
{
    if b.len() > 0 {
        let prefix = b.subrange(0, b.len() - 1);
        lemma_resolve_stmts(sigs, st, prefix);
        if let Ok((ip, st1)) = resolve_stmts_spec(sigs, st, prefix) {
            lemma_resolve_stmt(sigs, st1, b[b.len() - 1]);
            if let Ok((is, st2)) = resolve_stmt_spec(sigs, st1, b[b.len() - 1]) {
                assert(st2.scopes.subrange(0, st.scopes.len() - 1) =~= st.scopes.subrange(0, st.scopes.len() - 1));
                assert(ip.push(is).subrange(0, ip.len() as int) =~= ip);
            }
        }
    }
}

/// `index_of_name` finds the first occurrence at or after `from`, and only fails
/// where there is none.
pub proof fn lemma_index_of_name(names: Seq<Seq<char>>, name: Seq<char>, from: int)
    requires
        0 <= from,
    ensures
        index_of_name(names, name, from) is Some <==> exists|j: int| from <= j < names.len() && names[j] == name,
        index_of_name(names, name, from) matches Some(i) ==> from <= i < names.len() && names[i as int] == name,
    decreases names.len() - from,
{
    if from < names.len() && names[from] != name {
        lemma_index_of_name(names, name, from + 1);
        if exists|j: int| from <= j < names.len() && names[j] == name {
            let j = choose|j: int| from <= j < names.len() && names[j] == name;
            assert(from + 1 <= j);
        }
    }
}

/// Every local id bound in the scopes is below `n`.
pub open spec fn scopes_below(scopes: Seq<SpecScope>, n: nat) -> bool {
    forall|i: int, j: int| 0 <= i < scopes.len() && 0 <= j < scopes[i].len() ==> #[trigger] scopes[i][j].1 < n
}

proof fn lemma_scope_lookup_below(scope: SpecScope, name: Seq<char>, from: int, n: nat)
    requires
        forall|j: int| 0 <= j < scope.len() ==> #[trigger] scope[j].1 < n,
    ensures
        scope_lookup(scope, name, from) matches Some(l) ==> l < n,
    decreases scope.len() - from,
{
    if 0 <= from < scope.len() && scope[from].0 != name {
        lemma_scope_lookup_below(scope, name, from + 1, n);
    }
}

proof fn lemma_find_local_below(scopes: Seq<SpecScope>, name: Seq<char>, n: nat)
    requires
        scopes_below(scopes, n),
    ensures
        find_local(scopes, name) matches Some(l) ==> l < n,
    decreases scopes.len(),
{
    if scopes.len() > 0 {
        let last = scopes[scopes.len() - 1];
        assert forall|j: int| 0 <= j < last.len() implies #[trigger] last[j].1 < n by {
            assert(scopes[scopes.len() - 1][j].1 < n);
        }
        lemma_scope_lookup_below(last, name, 0, n);
        let rest = scopes.subrange(0, scopes.len() - 1);
        assert forall|i: int, j: int| 0 <= i < rest.len() && 0 <= j < rest[i].len() implies #[trigger] rest[i][j].1 < n by {
            assert(scopes[i][j].1 < n);
        }
        lemma_find_local_below(rest, name, n);
    }
}

/// An expression resolved in scopes whose ids are below `n` names only
/// functions of the program and locals below `n`.
proof fn lemma_resolve_expr_wf(sigs: Sigs, scopes: Seq<SpecScope>, e: SExpr, n: nat)
    requires
        scopes_below(scopes, n),
    ensures
        resolve_expr_spec(sigs, scopes, e) matches Ok(x) ==> ir::iexpr_wf(x, sigs.len(), n),
    decreases e, 1int,
{
    match e {
        SExpr::Variable(name) => lemma_find_local_below(scopes, name, n),
        SExpr::Assign { name, value } => {
            lemma_resolve_expr_wf(sigs, scopes, *value, n);
            lemma_find_local_below(scopes, name, n);
        },
        SExpr::Binary { lhs, rhs, .. } => {
            lemma_resolve_expr_wf(sigs, scopes, *lhs, n);
            lemma_resolve_expr_wf(sigs, scopes, *rhs, n);
        },
        SExpr::Call { name, args } => {
            lemma_index_of_name(sig_names(sigs), name, 0);
            lemma_resolve_args_wf(sigs, scopes, args, n);
        },
        SExpr::Addr(operand) => {
            if let SExpr::Variable(name) = *operand {
                lemma_find_local_below(scopes, name, n);
            }
        },
        SExpr::Deref(operand) => lemma_resolve_expr_wf(sigs, scopes, *operand, n),
        SExpr::Number(_) => {},
    }
}

proof fn lemma_resolve_args_wf(sigs: Sigs, scopes: Seq<SpecScope>, args: Seq<SExpr>, n: nat)
    requires
        scopes_below(scopes, n),
    ensures
        resolve_args_spec(sigs, scopes, args) matches Ok(xs) ==> ir::iexprs_wf(xs, sigs.len(), n),
    decreases args, 0int,
{
    if args.len() > 0 {
        let prefix = args.subrange(0, args.len() - 1);
        lemma_resolve_args_wf(sigs, scopes, prefix, n);
        lemma_resolve_expr_wf(sigs, scopes, args[args.len() - 1], n);
        if let Ok(xp) = resolve_args_spec(sigs, scopes, prefix) {
            if let Ok(x) = resolve_expr_spec(sigs, scopes, args[args.len() - 1]) {
                assert(xp.push(x).subrange(0, xp.len() as int) =~= xp);
            }
        }
    }
}

proof fn lemma_resolve_opt_wf(sigs: Sigs, scopes: Seq<SpecScope>, e: Option<SExpr>, n: nat)
    requires
        scopes_below(scopes, n),
    ensures
        resolve_opt_spec(sigs, scopes, e) matches Ok(x) ==> ir::opt_iexpr_wf(x, sigs.len(), n),
{
    if let Some(x) = e {
        lemma_resolve_expr_wf(sigs, scopes, x, n);
    }
}

proof fn lemma_push_scope_below(st: RState)
    requires
        scopes_below(st.scopes, st.next),
    ensures
        scopes_below(push_scope(st).scopes, st.next),
{
    let sc = push_scope(st).scopes;
    assert forall|i: int, j: int| 0 <= i < sc.len() && 0 <= j < sc[i].len() implies #[trigger] sc[i][j].1 < st.next by {
        assert(i < st.scopes.len());
        assert(st.scopes[i][j].1 < st.next);
    }
}

proof fn lemma_pop_scope_below(st: RState)
    requires
        st.scopes.len() >= 1,
        scopes_below(st.scopes, st.next),
    ensures
        scopes_below(pop_scope(st).scopes, st.next),
{
    let sc = pop_scope(st).scopes;
    assert forall|i: int, j: int| 0 <= i < sc.len() && 0 <= j < sc[i].len() implies #[trigger] sc[i][j].1 < st.next by {
        assert(st.scopes[i][j].1 < st.next);
    }
}

/// A statement resolved in a state whose ids are below its next free id names
/// only locals below the next free id after it, and leaves the state so.
proof fn lemma_resolve_stmt_wf(sigs: Sigs, st: RState, s: SStmt)
    requires
        st.scopes.len() >= 1,
        scopes_below(st.scopes, st.next),
    ensures
        resolve_stmt_spec(sigs, st, s) matches Ok((is, st2)) ==> {
            &&& ir::istmt_wf(is, sigs.len(), st2.next)
            &&& scopes_below(st2.scopes, st2.next)
        },
    decreases s, 0int,
{
    let nf = sigs.len();
    lemma_resolve_stmt(sigs, st, s);
    match s {
        SStmt::Expr(e) => lemma_resolve_expr_wf(sigs, st.scopes, e, st.next),
        SStmt::Return(e) => lemma_resolve_expr_wf(sigs, st.scopes, e, st.next),
        SStmt::Block(b) => lemma_resolve_block_wf(sigs, st, b),
        SStmt::If { condition, then_branch, else_branch } => {
            lemma_resolve_expr_wf(sigs, st.scopes, condition, st.next);
            lemma_resolve_stmt_wf(sigs, st, *then_branch);
            lemma_resolve_stmt(sigs, st, *then_branch);
            if let Ok(c) = resolve_expr_spec(sigs, st.scopes, condition) {
                if let Ok((t, st1)) = resolve_stmt_spec(sigs, st, *then_branch) {
                    match else_branch {
                        Some(e) => {
                            lemma_resolve_stmt_wf(sigs, st1, *e);
                            lemma_resolve_stmt(sigs, st1, *e);
                            if let Ok((el, st2)) = resolve_stmt_spec(sigs, st1, *e) {
                                ir::lemma_iexpr_wf_mono(c, nf, st.next, st2.next);
                                ir::lemma_istmt_wf_mono(t, nf, st1.next, st2.next);
                            }
                        },
                        None => {
                            ir::lemma_iexpr_wf_mono(c, nf, st.next, st1.next);
                        },
                    }
                }
            }
        },
        SStmt::While { condition, body } => {
            lemma_resolve_expr_wf(sigs, st.scopes, condition, st.next);
            lemma_resolve_stmt_wf(sigs, st, *body);
            if let Ok(c) = resolve_expr_spec(sigs, st.scopes, condition) {
                if let Ok((b, st1)) = resolve_stmt_spec(sigs, st, *body) {
                    ir::lemma_iexpr_wf_mono(c, nf, st.next, st1.next);
                }
            }
        },
        SStmt::For { init, condition, update, body } => {
            let inner = push_scope(st);
            lemma_push_scope_below(st);
            lemma_resolve_opt_wf(sigs, inner.scopes, init, st.next);
            lemma_resolve_opt_wf(sigs, inner.scopes, condition, st.next);
            lemma_resolve_opt_wf(sigs, inner.scopes, update, st.next);
            lemma_resolve_stmt_wf(sigs, inner, *body);
            lemma_resolve_stmt(sigs, inner, *body);
            if let Ok(i) = resolve_opt_spec(sigs, inner.scopes, init) {
                if let Ok(c) = resolve_opt_spec(sigs, inner.scopes, condition) {
                    if let Ok(u) = resolve_opt_spec(sigs, inner.scopes, update) {
                        if let Ok((b, st1)) = resolve_stmt_spec(sigs, inner, *body) {
                            ir::lemma_opt_iexpr_wf_mono(i, nf, st.next, st1.next);
                            ir::lemma_opt_iexpr_wf_mono(c, nf, st.next, st1.next);
                            ir::lemma_opt_iexpr_wf_mono(u, nf, st.next, st1.next);
                            lemma_pop_scope_below(st1);
                        }
                    }
                }
            }
        },
        SStmt::Decl { var_type, var_name } => {
            let st2 = define(st, var_name);
            let sc = st2.scopes;
            assert forall|i: int, j: int| 0 <= i < sc.len() && 0 <= j < sc[i].len() implies #[trigger] sc[i][j].1 < st2.next by {
                if i == st.scopes.len() - 1 && j == st.scopes[i].len() {
                } else {
                    assert(st.scopes[i][j].1 < st.next);
                }
            }
        },
    }
}

proof fn lemma_resolve_block_wf(sigs: Sigs, st: RState, b: Seq<SStmt>)
    requires
        st.scopes.len() >= 1,
        scopes_below(st.scopes, st.next),
    ensures
        resolve_block_spec(sigs, st, b) matches Ok((ib, st2)) ==> {
            &&& ir::istmts_wf(ib, sigs.len(), st2.next)
            &&& scopes_below(st2.scopes, st2.next)
        },
    decreases b, 1int,
{
    let inner = push_scope(st);
    lemma_push_scope_below(st);
    lemma_resolve_stmts_wf(sigs, inner, b);
    lemma_resolve_stmts(sigs, inner, b);
    if let Ok((ib, st1)) = resolve_stmts_spec(sigs, inner, b) {
        lemma_pop_scope_below(st1);
    }
}

proof fn lemma_resolve_stmts_wf(sigs: Sigs, st: RState, b: Seq<SStmt>)
    requires
        st.scopes.len() >= 1,
        scopes_below(st.scopes, st.next),
    ensures
        resolve_stmts_spec(sigs, st, b) matches Ok((ib, st2)) ==> {
            &&& ir::istmts_wf(ib, sigs.len(), st2.next)
            &&& scopes_below(st2.scopes, st2.next)
        },
    decreases b, 0int,
{
    if b.len() > 0 {
        let prefix = b.subrange(0, b.len() - 1);
        lemma_resolve_stmts_wf(sigs, st, prefix);
        lemma_resolve_stmts(sigs, st, prefix);
        if let Ok((ip, st1)) = resolve_stmts_spec(sigs, st, prefix) {
            lemma_resolve_stmt_wf(sigs, st1, b[b.len() - 1]);
            lemma_resolve_stmt(sigs, st1, b[b.len() - 1]);
            if let Ok((is, st2)) = resolve_stmt_spec(sigs, st1, b[b.len() - 1]) {
                ir::lemma_istmts_wf_mono(ip, sigs.len(), st1.next, st2.next);
                assert(ip.push(is).subrange(0, ip.len() as int) =~= ip);
            }
        }
    }
}

/// Parameter `j` gets local id `j`.
proof fn lemma_params_scope(f: SFunction, n: int)
    requires
        0 <= n <= f.params.len(),
    ensures
        params_scope_spec(f, n) matches Ok(scope) ==> {
            &&& scope.len() == n
            &&& forall|j: int| 0 <= j < n ==> #[trigger] scope[j].1 == j
        },
    decreases n,
{
    if n > 0 {
        lemma_params_scope(f, n - 1);
    }
}

/// A resolved function is well formed, has the id it was given, and one
/// local for each parameter and each declaration.
proof fn lemma_resolve_function_wf(sigs: Sigs, id: nat, f: SFunction)
    requires
        function_within_limits(f),
    ensures
        resolve_function_spec(sigs, id, f) matches Ok(g) ==> {
            &&& ir::ifunction_wf(g, sigs.len())
            &&& ir::ifunction_locals_in_frame(g, sigs.len())
            &&& g.id == id
            &&& g.name == f.name
            &&& g.params.len() == f.params.len()
            &&& g.local_count == f.params.len() + decls(f.body)
        },
{
    let n = f.params.len();
    lemma_params_scope(f, n as int);
    if let Ok(scope) = params_scope_spec(f, n as int) {
        let st = RState { scopes: seq![scope], next: n };
        assert forall|i: int, j: int| 0 <= i < st.scopes.len() && 0 <= j < st.scopes[i].len() implies #[trigger] st.scopes[i][j].1 < st.next by {
            assert(st.scopes[i] == scope);
            assert(scope[j].1 == j);
        }
        lemma_resolve_block_wf(sigs, st, f.body);
        lemma_resolve_block(sigs, st, f.body);
        lemma_decls_le_size(f.body);
        if let Ok((body, st2)) = resolve_block_spec(sigs, st, f.body) {
            ir::lemma_istmts_wf_mono(body, sigs.len(), st2.next, ir::local_id_bound());
        }
    }
}

proof fn lemma_resolve_functions_wf(sigs: Sigs, fs: Seq<SFunction>, n: int)
    requires
        0 <= n <= fs.len(),
        within_limits(fs),
    ensures
        resolve_functions_spec(sigs, fs, n) matches Ok(p) ==> {
            &&& p.len() == n
            &&& forall|i: int| 0 <= i < n ==> {
                &&& ir::ifunction_wf(#[trigger] p[i], sigs.len())
                &&& ir::ifunction_locals_in_frame(p[i], sigs.len())
                &&& p[i].id == i
                &&& p[i].name == fs[i].name
                &&& p[i].params.len() == fs[i].params.len()
                &&& p[i].local_count == fs[i].params.len() + decls(fs[i].body)
            }
        },
    decreases n,
{
    if n > 0 {
        lemma_resolve_functions_wf(sigs, fs, n - 1);
        assert(function_within_limits(fs[n - 1]));
        lemma_resolve_function_wf(sigs, (n - 1) as nat, fs[n - 1]);
    }
}

/// Every program that semantic analysis accepts is one that code generation
/// can compile: each function's id is its index, every function it calls
/// exists, every local it names is one of its own locals, and each function
/// has one local for each of its parameters and each of its declarations.
pub proof fn analyzed_program_is_well_formed(fs: Seq<SFunction>)
    requires
        within_limits(fs),
    ensures
        analyze_spec(fs) matches Ok(p) ==> {
            &&& ir::program_wf(p)
            &&& p.len() == fs.len()
            &&& forall|i: int| 0 <= i < p.len() ==> {
                &&& ir::ifunction_locals_in_frame(#[trigger] p[i], p.len())
                &&& p[i].id == i
                &&& p[i].name == fs[i].name
                &&& p[i].params.len() == fs[i].params.len()
                &&& p[i].local_count == fs[i].params.len() + decls(fs[i].body)
            }
        },
{
    lemma_resolve_functions_wf(sigs_of(fs), fs, fs.len() as int);
}

proof fn lemma_no_signature_error(fs: Seq<SFunction>, n: int)
    requires
        0 <= n <= fs.len(),
        signature_error(fs, n) is None,
    ensures
        forall|i: int| 0 <= i < n ==> (#[trigger] fs[i]).params.len() <= 8,
        forall|i: int, j: int| 0 <= i < j < n ==> (#[trigger] fs[i]).name != (#[trigger] fs[j]).name,
    decreases n,
{
    if n > 0 {
        lemma_no_signature_error(fs, n - 1);
        assert forall|i: int, j: int| 0 <= i < j < n implies (#[trigger] fs[i]).name != (#[trigger] fs[j]).name by {
            if j == n - 1 {
                if fs[i].name == fs[j].name {
                    assert(fs[i].name == fs[n - 1].name);
                }
            }
        }
    }
}

/// A program that semantic analysis accepts defines `main` with no parameters,
/// gives no function more than eight parameters, and gives no two functions
/// the same name.
pub proof fn accepted_program_signatures(fs: Seq<SFunction>)
    ensures
        analyze_spec(fs) is Ok ==> {
            &&& exists|i: int| 0 <= i < fs.len() && (#[trigger] fs[i]).name == "main"@ && fs[i].params.len() == 0
            &&& forall|i: int| 0 <= i < fs.len() ==> (#[trigger] fs[i]).params.len() <= 8
            &&& forall|i: int, j: int| 0 <= i < j < fs.len() ==> (#[trigger] fs[i]).name != (#[trigger] fs[j]).name
        },
{
    if analyze_spec(fs) is Ok {
        lemma_no_signature_error(fs, fs.len() as int);
        let names = sig_names(sigs_of(fs));
        lemma_index_of_name(names, "main"@, 0);
        let i = index_of_name(names, "main"@, 0).unwrap() as int;
        assert(names[i] == fs[i].name);
    }
}

/// `name` refers to the declaration in the innermost scope that declares it:
/// when `find_local` gives `l`, some scope binds `name` to `l` and no scope
/// inside that one declares `name`; when it gives nothing, no scope declares
/// `name`.
pub proof fn find_local_is_innermost(scopes: Seq<SpecScope>, name: Seq<char>)
    ensures
        find_local(scopes, name) matches Some(l) ==> exists|i: int|
            0 <= i < scopes.len() && #[trigger] scope_lookup(scopes[i], name, 0) == Some(l) && forall|j: int|
                i < j < scopes.len() ==> #[trigger] scope_lookup(scopes[j], name, 0) is None,
        find_local(scopes, name) is None ==> forall|i: int| 0 <= i < scopes.len() ==> #[trigger] scope_lookup(scopes[i], name, 0) is None,
    decreases scopes.len(),
{
    if scopes.len() > 0 {
        let last = scopes.len() - 1;
        let rest = scopes.subrange(0, last);
        find_local_is_innermost(rest, name);
        match scope_lookup(scopes[last], name, 0) {
            Some(l) => {
                assert(scope_lookup(scopes[last], name, 0) == Some(l));
            },
            None => {
                if let Some(l) = find_local(rest, name) {
                    let i = choose|i: int|
                        0 <= i < rest.len() && #[trigger] scope_lookup(rest[i], name, 0) == Some(l) && forall|j: int|
                            i < j < rest.len() ==> #[trigger] scope_lookup(rest[j], name, 0) is None;
                    assert(scopes[i] == rest[i]);
                    assert forall|j: int| i < j < scopes.len() implies #[trigger] scope_lookup(scopes[j], name, 0) is None by {
                        if j < last {
                            assert(scopes[j] == rest[j]);
                        }
                    }
                } else {
                    assert forall|i: int| 0 <= i < scopes.len() implies #[trigger] scope_lookup(scopes[i], name, 0) is None by {
                        if i < last {
                            assert(scopes[i] == rest[i]);
                        }
                    }
                }
            },
        }
    }
}

/// An assignment writes the local that a read of the same name in the same
/// place reads: the declaration in the innermost enclosing scope that
/// declares the name. An assignment is accepted exactly when its value is and
/// the name is declared.
pub proof fn assignment_targets_innermost_declaration(sigs: Sigs, scopes: Seq<SpecScope>, name: Seq<char>, value: SExpr)
    ensures
        resolve_expr_spec(sigs, scopes, SExpr::Assign { name, value: Box::new(value) }) matches Ok(r) ==> {
            &&& r matches IExpr::Assign { target, .. } && {
                &&& resolve_expr_spec(sigs, scopes, SExpr::Variable(name)) == Ok::<IExpr, Seq<char>>(IExpr::Local(target))
                &&& exists|i: int|
                    0 <= i < scopes.len() && #[trigger] scope_lookup(scopes[i], name, 0) == Some(target) && forall|j: int|
                        i < j < scopes.len() ==> #[trigger] scope_lookup(scopes[j], name, 0) is None
            }
        },
        resolve_expr_spec(sigs, scopes, value) is Ok && resolve_expr_spec(sigs, scopes, SExpr::Variable(name)) is Ok
            <==> resolve_expr_spec(sigs, scopes, SExpr::Assign { name, value: Box::new(value) }) is Ok,
{
    find_local_is_innermost(scopes, name);
}

/// A prefix of a sequence of statements has at most as many statements as the whole.
pub proof fn lemma_stmts_size_prefix(b: Seq<SStmt>, i: int)
    requires
        0 <= i <= b.len(),
    ensures
        stmts_size(b.subrange(0, i)) <= stmts_size(b),
    decreases b.len() - i,
{
    if i == b.len() {
        assert(b.subrange(0, i) =~= b);
    } else {
        lemma_stmts_size_prefix(b, i + 1);
        assert(b.subrange(0, i + 1).subrange(0, i) =~= b.subrange(0, i));
    }
}

/// An error in resolving a prefix of the arguments is the error of all of them.
proof fn lemma_args_prefix_err(sigs: Sigs, scopes: Seq<SpecScope>, args: Seq<SExpr>, k: int)
    requires
        0 <= k <= args.len(),
        resolve_args_spec(sigs, scopes, args.subrange(0, k)) is Err,
    ensures
        resolve_args_spec(sigs, scopes, args) == resolve_args_spec(sigs, scopes, args.subrange(0, k)),
    decreases args.len() - k,
{
    if k == args.len() {
        assert(args.subrange(0, k) =~= args);
    } else {
        assert(args.subrange(0, k + 1).subrange(0, k) =~= args.subrange(0, k));
        lemma_args_prefix_err(sigs, scopes, args, k + 1);
    }
}

/// An error in resolving a prefix of the statements is the error of all of them.
proof fn lemma_stmts_prefix_err(sigs: Sigs, st: RState, b: Seq<SStmt>, k: int)
    requires
        0 <= k <= b.len(),
        resolve_stmts_spec(sigs, st, b.subrange(0, k)) is Err,
    ensures
        resolve_stmts_spec(sigs, st, b) == resolve_stmts_spec(sigs, st, b.subrange(0, k)),
    decreases b.len() - k,
{
    if k == b.len() {
        assert(b.subrange(0, k) =~= b);
    } else {
        assert(b.subrange(0, k + 1).subrange(0, k) =~= b.subrange(0, k));
        lemma_stmts_prefix_err(sigs, st, b, k + 1);
    }
}

/// An error in resolving the first functions is the error of the program.
proof fn lemma_functions_prefix_err(sigs: Sigs, fs: Seq<SFunction>, k: int, n: int)
    requires
        0 <= k <= n,
        resolve_functions_spec(sigs, fs, k) is Err,
    ensures
        resolve_functions_spec(sigs, fs, n) == resolve_functions_spec(sigs, fs, k),
    decreases n - k,
{
    if k < n {
        lemma_functions_prefix_err(sigs, fs, k, n - 1);
    }
}

/// An error in the parameters of a prefix is the error of all of them.
proof fn lemma_params_prefix_err(f: SFunction, k: int, n: int)
    requires
        0 <= k <= n,
        params_scope_spec(f, k) is Err,
    ensures
        params_scope_spec(f, n) == params_scope_spec(f, k),
    decreases n - k,
{
    if k < n {
        lemma_params_prefix_err(f, k, n - 1);
    }
}

/// An error of semantic analysis, with its message.
#[derive(Debug, PartialEq, Eq)]
pub struct SemanticError(String);

impl View for SemanticError {
    type V = Seq<char>;

    closed spec fn view(&self) -> Seq<char> {
        self.0@
    }
}

impl SemanticError {
    fn new(message: String) -> (e: Self)
        ensures
            e@ == message@,
    {
        SemanticError(message)
    }

    /// The message of the error.
    pub fn to_string(&self) -> (s: String)
        ensures
            s@ == self@,
    {
        self.0.clone()
    }
}

/// A function's name and number of parameters; its id is its index.
struct Signature {
    name: String,
    arity: usize,
}

spec fn sigs_view(s: Seq<Signature>) -> Sigs {
    s.map_values(|g: Signature| (g.name@, g.arity as nat))
}

spec fn scope_view(v: Seq<(String, ir::LocalId)>) -> SpecScope {
    v.map_values(|p: (String, ir::LocalId)| (p.0@, p.1.0 as nat))
}

spec fn scopes_view(s: Seq<Vec<(String, ir::LocalId)>>) -> Seq<SpecScope> {
    s.map_values(|v: Vec<(String, ir::LocalId)>| scope_view(v@))
}

spec fn opt_local_view(o: Option<ir::LocalId>) -> Option<nat> {
    match o {
        Some(l) => Some(l.0 as nat),
        None => None,
    }
}

fn quoted_string(name: &String) -> (s: String)
    ensures
        s@ == quoted(name@),
{
    let mut s = String::from_str("'");
    s.append(name.as_str());
    s.append("'");
    s
}

/// `prefix` followed by the quoted name.
fn prefix_quoted(prefix: &str, name: &String) -> (s: String)
    ensures
        s@ == prefix@ + quoted(name@),
{
    let mut s = String::from_str(prefix);
    let q = quoted_string(name);
    s.append(q.as_str());
    s
}

/// The quoted name followed by `suffix`.
fn quoted_suffix(name: &String, suffix: &str) -> (s: String)
    ensures
        s@ == quoted(name@) + suffix@,
{
    let mut s = quoted_string(name);
    s.append(suffix);
    s
}

/// `"<prefix>'<name>' has <n><suffix>"`
fn count_message(prefix: &str, name: &String, n: usize, suffix: &str) -> (s: String)
    ensures
        s@ == prefix@ + quoted(name@) + " has "@ + decimal(n as nat) + suffix@,
{
    let mut s = prefix_quoted(prefix, name);
    s.append(" has ");
    crate::text::push_decimal(&mut s, n as u64);
    s.append(suffix);
    s
}

/// The index of the first signature named `name`.
fn find_signature(signatures: &Vec<Signature>, name: &String) -> (r: Option<usize>)
    ensures
        match index_of_name(sig_names(sigs_view(signatures@)), name@, 0) {
            Some(i) => r matches Some(j) && j as nat == i,
            None => r is None,
        },
        r matches Some(i) ==> i < signatures@.len() && signatures@[i as int].name@ == name@,
{
    proof {
        lemma_index_of_name(sig_names(sigs_view(signatures@)), name@, 0);
    }
    let ghost names = sig_names(sigs_view(signatures@));
    let mut i: usize = 0;
    while i < signatures.len()
        invariant
            names == sig_names(sigs_view(signatures@)),
            names.len() == signatures@.len(),
            i <= signatures@.len(),
            index_of_name(names, name@, 0) == index_of_name(names, name@, i as int),
        decreases signatures@.len() - i,
    {
        if signatures[i].name == *name {
            return Some(i);
        }
        i += 1;
    }
    None
}

/// Resolves names inside one function.
struct Resolver<'a> {
    signatures: &'a Vec<Signature>,
    scopes: Vec<Vec<(String, ir::LocalId)>>,
    next_local: usize,
}

impl<'a> Resolver<'a> {
    spec fn state(&self) -> RState {
        RState { scopes: scopes_view(self.scopes@), next: self.next_local as nat }
    }

    spec fn sigs(&self) -> Sigs {
        sigs_view(self.signatures@)
    }

    /// Against `old`: as many scopes, all but the innermost unchanged, and no
    /// local id given back.
    spec fn outer_kept(&self, old: &Self) -> bool {
        &&& self.state().scopes.len() == old.state().scopes.len()
        &&& self.state().scopes.subrange(0, old.state().scopes.len() - 1)
            == old.state().scopes.subrange(0, old.state().scopes.len() - 1)
        &&& self.state().next >= old.state().next
    }

    fn new(signatures: &'a Vec<Signature>) -> (r: Self)
        ensures
            r.signatures == signatures,
            r.state() == (RState { scopes: seq![Seq::<(Seq<char>, nat)>::empty()], next: 0 }),
    {
        let first: Vec<(String, ir::LocalId)> = Vec::new();
        let mut scopes: Vec<Vec<(String, ir::LocalId)>> = Vec::new();
        scopes.push(first);
        let r = Self { signatures, scopes, next_local: 0 };
        proof {
            assert(scope_view(first@) =~= Seq::<(Seq<char>, nat)>::empty());
            assert(r.state().scopes =~= seq![Seq::<(Seq<char>, nat)>::empty()]);
        }
        r
    }

    fn new_local(&mut self) -> (local: ir::LocalId)
        requires
            old(self).next_local < usize::MAX,
        ensures
            local.0 == old(self).next_local,
            final(self).next_local == old(self).next_local + 1,
            final(self).scopes == old(self).scopes,
            final(self).signatures == old(self).signatures,
    {
        let local = ir::LocalId(self.next_local);
        self.next_local += 1;
        local
    }

    fn define_local(&mut self, name: String) -> (local: ir::LocalId)
        requires
            old(self).next_local < usize::MAX,
            old(self).scopes@.len() >= 1,
        ensures
            local.0 == old(self).next_local,
            final(self).state() == define(old(self).state(), name@),
            final(self).signatures == old(self).signatures,
    {
        let ghost old_state = self.state();
        let local = self.new_local();
        let mut scope = self.scopes.pop().unwrap();
        let ghost old_scope = scope@;
        scope.push((name, local));
        self.scopes.push(scope);
        proof {
            assert(scope_view(scope@) =~= scope_view(old_scope).push((name@, local.0 as nat)));
            assert(self.state().scopes =~= define(old_state, name@).scopes);
        }
        local
    }

    fn lookup_in_scope(scope: &Vec<(String, ir::LocalId)>, name: &String) -> (r: Option<ir::LocalId>)
        ensures
            opt_local_view(r) == scope_lookup(scope_view(scope@), name@, 0),
    {
        let ghost sv = scope_view(scope@);
        let mut j: usize = 0;
        while j < scope.len()
            invariant
                sv == scope_view(scope@),
                sv.len() == scope@.len(),
                j <= scope@.len(),
                scope_lookup(sv, name@, 0) == scope_lookup(sv, name@, j as int),
            decreases scope@.len() - j,
        {
            if scope[j].0 == *name {
                return Some(scope[j].1);
            }
            j += 1;
        }
        None
    }

    fn find_local(&self, name: &String) -> (r: Option<ir::LocalId>)
        ensures
            opt_local_view(r) == find_local(self.state().scopes, name@),
    {
        let ghost sv = self.state().scopes;
        let mut i = self.scopes.len();
        proof {
            assert(sv.subrange(0, i as int) =~= sv);
        }
        while i > 0
            invariant
                sv == self.state().scopes,
                sv.len() == self.scopes@.len(),
                i <= self.scopes@.len(),
                find_local(sv, name@) == find_local(sv.subrange(0, i as int), name@),
            decreases i,
        {
            let found = Self::lookup_in_scope(&self.scopes[i - 1], name);
            proof {
                assert(sv.subrange(0, i as int).subrange(0, i - 1) =~= sv.subrange(0, i - 1));
            }
            if found.is_some() {
                return found;
            }
            i -= 1;
        }
        None
    }

    fn find_local_this_scope(&self, name: &String) -> (r: Option<ir::LocalId>)
        requires
            self.scopes@.len() >= 1,
        ensures
            opt_local_view(r) == scope_lookup(self.state().scopes[self.state().scopes.len() - 1], name@, 0),
    {
        let last = self.scopes.len() - 1;
        Self::lookup_in_scope(&self.scopes[last], name)
    }
}

fn resolve_binary_op(op: ast::BinaryOp) -> (r: ir::BinaryOp)
    ensures
        r == ir_binary_op(op),
{
    match op {
        ast::BinaryOp::Add => ir::BinaryOp::Add,
        ast::BinaryOp::Sub => ir::BinaryOp::Sub,
        ast::BinaryOp::Mul => ir::BinaryOp::Mul,
        ast::BinaryOp::Div => ir::BinaryOp::Div,
        ast::BinaryOp::Less => ir::BinaryOp::Less,
        ast::BinaryOp::LessEqual => ir::BinaryOp::LessEqual,
        ast::BinaryOp::Equal => ir::BinaryOp::Equal,
        ast::BinaryOp::NotEqual => ir::BinaryOp::NotEqual,
    }
}

/// The first signature error is the error of every longer prefix.
proof fn lemma_signature_error_prefix(fs: Seq<SFunction>, k: int, n: int)
    requires
        0 <= k <= n,
        signature_error(fs, k) is Some,
    ensures
        signature_error(fs, n) == signature_error(fs, k),
    decreases n - k,
{
    if k < n {
        lemma_signature_error_prefix(fs, k, n - 1);
    }
}

proof fn lemma_scopes_view(s: Seq<Vec<(String, ir::LocalId)>>)
    ensures
        scopes_view(s).len() == s.len(),
        forall|i: int| 0 <= i < s.len() ==> #[trigger] scopes_view(s)[i] == scope_view(s[i]@),
{
}

impl<'a> Resolver<'a> {
    fn resolve_opt(&self, expr: &Option<ast::Expr>) -> (res: Result<Option<ir::Expr>, SemanticError>)
        ensures
            match resolve_opt_spec(self.sigs(), self.state().scopes, ast::opt_expr_view(*expr)) {
                Ok(o) => res matches Ok(r) && ir::opt_iexpr_view(r) == o,
                Err(m) => res matches Err(e) && e@ == m,
            },
    {
        match expr {
            Some(e) => Ok(Some(self.resolve_expr(e)?)),
            None => Ok(None),
        }
    }

    fn resolve_expr(&self, expr: &ast::Expr) -> (res: Result<ir::Expr, SemanticError>)
        ensures
            match resolve_expr_spec(self.sigs(), self.state().scopes, expr@) {
                Ok(x) => res matches Ok(r) && r@ == x,
                Err(m) => res matches Err(e) && e@ == m,
            },
        decreases expr,
    {
        match expr {
            ast::Expr::Number(number) => Ok(ir::Expr::Number(*number)),
            ast::Expr::Variable(name) => match self.find_local(name) {
                Some(local) => Ok(ir::Expr::Local(local)),
                None => Err(SemanticError::new(prefix_quoted("undefined variable: ", name))),
            },
            ast::Expr::Assign { name, value } => {
                let value = self.resolve_expr(value)?;
                let target = match self.find_local(name) {
                    Some(local) => local,
                    None => {
                        return Err(SemanticError::new(quoted_suffix(name, " is not declared in this scope.")));
                    },
                };
                Ok(ir::Expr::Assign { target, value: Box::new(value) })
            },
            ast::Expr::Binary { op, lhs, rhs } => {
                let lhs = self.resolve_expr(lhs)?;
                let rhs = self.resolve_expr(rhs)?;
                Ok(ir::Expr::Binary { op: resolve_binary_op(*op), lhs: Box::new(lhs), rhs: Box::new(rhs) })
            },
            ast::Expr::Call { name, args } => {
                let ghost av = ast::exprs_view(args@);
                proof {
                    ast::lemma_exprs_view(args@);
                }
                if args.len() > MAX_ARGUMENTS {
                    return Err(SemanticError::new(
                        count_message("call to ", name, args.len(), " arguments; at most 8 are supported"),
                    ));
                }
                let function = match find_signature(self.signatures, name) {
                    Some(index) => index,
                    None => {
                        return Err(SemanticError::new(prefix_quoted("call to undefined function: ", name)));
                    },
                };
                let arity = self.signatures[function].arity;
                proof {
                    assert(self.sigs()[function as int].1 == arity as nat);
                }
                if args.len() != arity {
                    let mut message = count_message("call to ", name, args.len(), " arguments but ");
                    crate::text::push_decimal(&mut message, arity as u64);
                    message.append(" are required");
                    assert(expr@ == SExpr::Call { name: name@, args: av });
                    assert(index_of_name(sig_names(self.sigs()), name@, 0) == Some(function as nat));
                    assert(message@ == wrong_arity(name@, av.len(), arity as nat));
                    assert(resolve_expr_spec(self.sigs(), self.state().scopes, expr@) == Err::<IExpr, Seq<char>>(wrong_arity(name@, av.len(), arity as nat)));
                    return Err(SemanticError::new(message));
                }
                let mut resolved: Vec<ir::Expr> = Vec::new();
                let mut i: usize = 0;
                proof {
                    assert(av.subrange(0, 0) =~= Seq::<SExpr>::empty());
                }
                while i < args.len()
                    invariant
                        *expr == (ast::Expr::Call { name: *name, args: *args }),
                        args@.len() <= 8,
                        index_of_name(sig_names(self.sigs()), name@, 0) == Some(function as nat),
                        function < self.signatures@.len(),
                        self.sigs()[function as int].1 == args@.len(),
                        av == ast::exprs_view(args@),
                        av.len() == args@.len(),
                        forall|k: int| 0 <= k < args@.len() ==> #[trigger] av[k] == ast::expr_view(args@[k]),
                        i <= args@.len(),
                        resolve_args_spec(self.sigs(), self.state().scopes, av.subrange(0, i as int))
                            == Ok::<Seq<IExpr>, Seq<char>>(ir::iexprs_view(resolved@)),
                    decreases args@.len() - i,
                {
                    proof {
                        vstd::std_specs::vec::axiom_vec_index_decreases(*args, i as int);
                        assert(decreases_to!(*expr => args[i as int]));
                    }
                    let a = match self.resolve_expr(&args[i]) {
                        Ok(a) => a,
                        Err(e) => {
                            proof {
                                assert(av.subrange(0, i + 1).subrange(0, i as int) =~= av.subrange(0, i as int));
                                lemma_args_prefix_err(self.sigs(), self.state().scopes, av, i + 1);
                            }
                            return Err(e);
                        },
                    };
                    proof {
                        assert(av.subrange(0, i + 1).subrange(0, i as int) =~= av.subrange(0, i as int));
                        ir::lemma_iexprs_view_push(resolved@, a);
                    }
                    resolved.push(a);
                    i += 1;
                }
                proof {
                    assert(av.subrange(0, i as int) =~= av);
                    assert(resolve_args_spec(self.sigs(), self.state().scopes, av) == Ok::<Seq<IExpr>, Seq<char>>(ir::iexprs_view(resolved@)));
                    assert(expr@ == SExpr::Call { name: name@, args: av });
                }
                let r = ir::Expr::Call { function: ir::FunctionId(function), args: resolved };
                assert(resolve_expr_spec(self.sigs(), self.state().scopes, expr@) == Ok::<IExpr, Seq<char>>(r@));
                Ok(r)
            },
            ast::Expr::Addr(operand) => {
                let inner: &ast::Expr = operand;
                assert(expr@ == SExpr::Addr(Box::new(inner@)));
                match inner {
                    ast::Expr::Variable(name) => match self.find_local(name) {
                        Some(local) => Ok(ir::Expr::Addr(local)),
                        None => Err(SemanticError::new(prefix_quoted("undefined variable: ", name))),
                    },
                    _ => Err(SemanticError::new(String::from_str("operand of '&' must be a variable"))),
                }
            },
            ast::Expr::Deref(operand) => {
                let operand = self.resolve_expr(operand)?;
                Ok(ir::Expr::Deref(Box::new(operand)))
            },
        }
    }
}

impl<'a> Resolver<'a> {
    fn resolve_stmt(&mut self, statement: &ast::Stmt) -> (res: Result<ir::Stmt, SemanticError>)
        requires
            old(self).scopes@.len() >= 1,
            old(self).next_local + stmt_size(statement@) <= max_locals(),
        ensures
            final(self).signatures == old(self).signatures,
            match resolve_stmt_spec(old(self).sigs(), old(self).state(), statement@) {
                Ok((st, state)) => res matches Ok(r) && r@ == st && final(self).state() == state,
                Err(m) => res matches Err(e) && e@ == m,
            },
            final(self).outer_kept(old(self)),
        decreases statement, 1int,
    {
        let ghost sigs = self.sigs();
        let ghost st0 = self.state();
        proof {
            lemma_decls_stmt_le_size(statement@);
        }
        match statement {
            ast::Stmt::Expr(expr) => Ok(ir::Stmt::Expr(self.resolve_expr(expr)?)),
            ast::Stmt::Return(expr) => Ok(ir::Stmt::Return(self.resolve_expr(expr)?)),
            ast::Stmt::Block(block) => Ok(ir::Stmt::Block(self.resolve_block(block)?)),
            ast::Stmt::If { condition, then_branch, else_branch } => {
                let condition = self.resolve_expr(condition)?;
                let then_stmt: &ast::Stmt = then_branch;
                proof {
                    lemma_resolve_stmt(sigs, st0, then_stmt@);
                    lemma_decls_stmt_le_size(then_stmt@);
                }
                let then_branch = Box::new(self.resolve_stmt(then_stmt)?);
                let else_branch = match else_branch {
                    Some(branch) => {
                        let else_stmt: &ast::Stmt = branch;
                        Some(Box::new(self.resolve_stmt(else_stmt)?))
                    },
                    None => None,
                };
                Ok(ir::Stmt::If { condition, then_branch, else_branch })
            },
            ast::Stmt::While { condition, body } => {
                let condition = self.resolve_expr(condition)?;
                let body_stmt: &ast::Stmt = body;
                Ok(ir::Stmt::While { condition, body: Box::new(self.resolve_stmt(body_stmt)?) })
            },
            ast::Stmt::For { init, condition, update, body } => {
                let body_stmt: &ast::Stmt = body;
                let ghost old_scopes = self.scopes@;
                let empty: Vec<(String, ir::LocalId)> = Vec::new();
                let ghost ev = empty@;
                self.scopes.push(empty);
                proof {
                    assert(self.state() == push_scope(st0)) by {
                        assert(scope_view(ev) =~= Seq::<(Seq<char>, nat)>::empty());
                        assert(self.state().scopes =~= push_scope(st0).scopes);
                    }
                }
                let result = self.resolve_for(init, condition, update, body_stmt);
                let ghost before_pop = self.state();
                if result.is_ok() {
                    proof {
                        lemma_resolve_stmt(sigs, push_scope(st0), body_stmt@);
                    }
                }
                self.scopes.pop();
                proof {
                    assert(self.state().scopes =~= pop_scope(before_pop).scopes);
                    assert(push_scope(st0).scopes.subrange(0, st0.scopes.len() as int) =~= st0.scopes);
                    assert(self.state().scopes =~= st0.scopes);
                }
                result
            },
            ast::Stmt::Decl { var_type, var_name } => {
                if !(*var_type == String::from_str("int")) {
                    return Err(SemanticError::new(prefix_quoted("invalid data type: ", var_type)));
                }
                if self.find_local_this_scope(var_name).is_some() {
                    return Err(SemanticError::new(quoted_suffix(var_name, " is already declared in this scope.")));
                }
                let target = self.define_local(var_name.clone());
                proof {
                    assert(self.state().scopes.subrange(0, st0.scopes.len() - 1) =~= st0.scopes.subrange(0, st0.scopes.len() - 1));
                }
                Ok(ir::Stmt::Decl { ctype: CType::Int, target })
            },
        }
    }

    /// The parts of a `for` statement, resolved in the scope it opened.
    fn resolve_for(
        &mut self,
        init: &Option<ast::Expr>,
        condition: &Option<ast::Expr>,
        update: &Option<ast::Expr>,
        body: &ast::Stmt,
    ) -> (res: Result<ir::Stmt, SemanticError>)
        requires
            old(self).scopes@.len() >= 1,
            old(self).next_local + stmt_size(body@) <= max_locals(),
        ensures
            final(self).signatures == old(self).signatures,
            match resolve_opt_spec(old(self).sigs(), old(self).state().scopes, ast::opt_expr_view(*init)) {
                Err(m) => res matches Err(e) && e@ == m,
                Ok(i) => match resolve_opt_spec(old(self).sigs(), old(self).state().scopes, ast::opt_expr_view(*condition)) {
                    Err(m) => res matches Err(e) && e@ == m,
                    Ok(c) => match resolve_opt_spec(old(self).sigs(), old(self).state().scopes, ast::opt_expr_view(*update)) {
                        Err(m) => res matches Err(e) && e@ == m,
                        Ok(u) => match resolve_stmt_spec(old(self).sigs(), old(self).state(), body@) {
                            Ok((b, state)) => res matches Ok(r) && r@ == (IStmt::For { init: i, condition: c, update: u, body: Box::new(b) })
                                && final(self).state() == state,
                            Err(m) => res matches Err(e) && e@ == m,
                        },
                    },
                },
            },
            final(self).outer_kept(old(self)),
        decreases body, 2int,
    {
        let init = self.resolve_opt(init)?;
        let condition = self.resolve_opt(condition)?;
        let update = self.resolve_opt(update)?;
        let body = self.resolve_stmt(body)?;
        Ok(ir::Stmt::For { init, condition, update, body: Box::new(body) })
    }

    fn resolve_block(&mut self, block: &ast::Block) -> (res: Result<ir::Block, SemanticError>)
        requires
            old(self).scopes@.len() >= 1,
            old(self).next_local + stmts_size(block@) <= max_locals(),
        ensures
            final(self).signatures == old(self).signatures,
            match resolve_block_spec(old(self).sigs(), old(self).state(), block@) {
                Ok((b, state)) => res matches Ok(r) && r@ == b && final(self).state() == state,
                Err(m) => res matches Err(e) && e@ == m,
            },
            final(self).state().scopes == old(self).state().scopes,
            final(self).state().next >= old(self).state().next,
        decreases block, 1int,
    {
        let ghost sigs = self.sigs();
        let ghost st0 = self.state();
        let ghost bv = block@;
        proof {
            ast::lemma_stmts_view(block.statements@);
        }
        let empty: Vec<(String, ir::LocalId)> = Vec::new();
        let ghost ev = empty@;
        self.scopes.push(empty);
        proof {
            assert(scope_view(ev) =~= Seq::<(Seq<char>, nat)>::empty());
            assert(self.state().scopes =~= push_scope(st0).scopes);
            assert(bv.subrange(0, 0) =~= Seq::<SStmt>::empty());
        }
        let mut statements: Vec<ir::Stmt> = Vec::new();
        let mut i: usize = 0;
        while i < block.statements.len()
            invariant
                self.signatures == old(self).signatures,
                sigs == self.sigs(),
                st0 == old(self).state(),
                bv == block@,
                bv.len() == block.statements@.len(),
                forall|k: int| 0 <= k < bv.len() ==> #[trigger] bv[k] == ast::stmt_view(block.statements@[k]),
                i <= block.statements@.len(),
                self.scopes@.len() == st0.scopes.len() + 1,
                self.next_local + stmts_size(bv) - stmts_size(bv.subrange(0, i as int)) <= max_locals(),
                resolve_stmts_spec(sigs, push_scope(st0), bv.subrange(0, i as int))
                    == Ok::<(Seq<IStmt>, RState), Seq<char>>((ir::istmts_view(statements@), self.state())),
                self.state().scopes.subrange(0, st0.scopes.len() as int) == st0.scopes,
                self.state().next >= st0.next,
            decreases block.statements@.len() - i,
        {
            proof {
                assert(bv.subrange(0, i + 1).subrange(0, i as int) =~= bv.subrange(0, i as int));
                lemma_stmts_size_prefix(bv, i + 1);
                lemma_resolve_stmts(sigs, push_scope(st0), bv.subrange(0, i as int));
                vstd::std_specs::vec::axiom_vec_index_decreases(block.statements, i as int);
                assert(decreases_to!(*block => block.statements[i as int]));
            }
            let ghost before = self.state();
            match self.resolve_stmt(&block.statements[i]) {
                Ok(statement) => {
                    proof {
                        ir::lemma_istmts_view_push(statements@, statement);
                        lemma_resolve_stmt(sigs, before, bv[i as int]);
                        lemma_decls_stmt_le_size(bv[i as int]);
                    }
                    statements.push(statement);
                },
                Err(e) => {
                    proof {
                        let prefix = bv.subrange(0, i + 1);
                        assert(prefix[i as int] == bv[i as int]);
                        assert(prefix.subrange(0, i as int) =~= bv.subrange(0, i as int));
                        assert(resolve_stmts_spec(sigs, push_scope(st0), prefix) == Err::<(Seq<IStmt>, RState), Seq<char>>(e@));
                        lemma_stmts_prefix_err(sigs, push_scope(st0), bv, i + 1);
                        assert(resolve_stmts_spec(sigs, push_scope(st0), bv) == Err::<(Seq<IStmt>, RState), Seq<char>>(e@));
                        assert(resolve_block_spec(sigs, st0, bv) == Err::<(Seq<IStmt>, RState), Seq<char>>(e@));
                    }
                    let ghost before_pop = self.state();
                    self.scopes.pop();
                    proof {
                        assert(self.state().scopes =~= before_pop.scopes.subrange(0, st0.scopes.len() as int));
                    }
                    return Err(e);
                },
            }
            i += 1;
        }
        proof {
            assert(bv.subrange(0, i as int) =~= bv);
        }
        let ghost before_pop = self.state();
        self.scopes.pop();
        proof {
            assert(self.state().scopes =~= pop_scope(before_pop).scopes);
        }
        Ok(ir::Block { statements })
    }
}

impl<'a> Resolver<'a> {
    fn resolve_function(&mut self, id: ir::FunctionId, function: &ast::Function) -> (res: Result<ir::Function, SemanticError>)
        requires
            old(self).state() == (RState { scopes: seq![Seq::<(Seq<char>, nat)>::empty()], next: 0 }),
            function_within_limits(function@),
        ensures
            match resolve_function_spec(old(self).sigs(), id.0 as nat, function@) {
                Ok(f) => res matches Ok(r) && r@ == f,
                Err(m) => res matches Err(e) && e@ == m,
            },
    {
        let ghost sigs = self.sigs();
        let ghost fv = function@;
        let mut params: Vec<ir::LocalId> = Vec::new();
        let mut i: usize = 0;
        proof {
            lemma_scopes_view(self.scopes@);
        }
        while i < function.params.len()
            invariant
                sigs == self.sigs(),
                sigs == old(self).sigs(),
                fv == function@,
                fv.params.len() == function.params@.len(),
                forall|k: int| 0 <= k < function.params@.len() ==> #[trigger] fv.params[k] == function.params@[k]@,
                function_within_limits(fv),
                i <= function.params@.len(),
                self.scopes@.len() == 1,
                self.state().scopes.len() == 1,
                self.next_local == i,
                params@.len() == i,
                forall|k: int| 0 <= k < i ==> #[trigger] params@[k].0 == k,
                params_scope_spec(fv, i as int) == Ok::<SpecScope, Seq<char>>(self.state().scopes[0]),
            decreases function.params@.len() - i,
        {
            let name = &function.params[i];
            if Self::lookup_in_scope(&self.scopes[0], name).is_some() {
                let mut message = prefix_quoted("duplicate parameter ", name);
                message.append(" in function ");
                let q = quoted_string(&function.name);
                message.append(q.as_str());
                proof {
                    lemma_params_prefix_err(fv, i + 1, fv.params.len() as int);
                }
                return Err(SemanticError::new(message));
            }
            let local = self.define_local(name.clone());
            proof {
                lemma_scopes_view(self.scopes@);
            }
            params.push(local);
            i += 1;
        }
        proof {
            assert(self.state().scopes =~= seq![self.state().scopes[0]]);
            assert(ir::locals_view(params@) =~= Seq::new(i as nat, |k: int| k as nat));
        }
        let body = self.resolve_block(&function.body)?;
        Ok(ir::Function { id, name: function.name.clone(), params, body, local_count: self.next_local })
    }
}

/// Resolves every name of the program: each function gets the id of its
/// position, and each parameter and declared variable a local id of its
/// function, in order of declaration. The program must define `main()` with no
/// parameters, no function may have more than eight parameters or share its
/// name with another, and every call must name a defined function with as many
/// arguments as it has parameters.
pub fn analyze(program: ast::Program) -> (res: Result<ir::Program, SemanticError>)
    requires
        within_limits(program@),
    ensures
        match analyze_spec(program@) {
            Ok(fs) => res matches Ok(p) && p@ == fs,
            Err(m) => res matches Err(e) && e@ == m,
        },
{
    let functions = &program.functions;
    let ghost fs = program@;
    let mut signatures: Vec<Signature> = Vec::new();
    let mut index: usize = 0;
    while index < functions.len()
        invariant
            fs == program@,
            functions == &program.functions,
            fs == ast::functions_view(functions@),
            fs.len() == functions@.len(),
            index <= functions@.len(),
            signature_error(fs, index as int) is None,
            signatures@.len() == index,
            forall|k: int| 0 <= k < index ==> #[trigger] sigs_view(signatures@)[k] == (fs[k].name, fs[k].params.len()),
        decreases functions@.len() - index,
    {
        let function = &functions[index];
        let ghost names = sig_names(sigs_view(signatures@));
        proof {
            assert(fs[index as int].params.len() == function.params@.len());
            assert forall|j: int| 0 <= j < index implies #[trigger] names[j] == fs[j].name by {
                assert(sigs_view(signatures@)[j] == (fs[j].name, fs[j].params.len()));
            }
            lemma_index_of_name(names, function.name@, 0);
        }
        if function.params.len() > MAX_ARGUMENTS {
            proof {
                lemma_signature_error_prefix(fs, index + 1, fs.len() as int);
            }
            return Err(SemanticError::new(
                count_message("function ", &function.name, function.params.len(), " parameters; at most 8 are supported"),
            ));
        }
        if find_signature(&signatures, &function.name).is_some() {
            proof {
                let i = index_of_name(names, function.name@, 0)->0;
                assert(fs[i as int].name == fs[index as int].name);
                lemma_signature_error_prefix(fs, index + 1, fs.len() as int);
            }
            return Err(SemanticError::new(prefix_quoted("duplicate function definition: ", &function.name)));
        }
        proof {
            if exists|j: int| 0 <= j < index && #[trigger] fs[j].name == fs[index as int].name {
                let j = choose|j: int| 0 <= j < index && #[trigger] fs[j].name == fs[index as int].name;
                assert(names[j] == function.name@);
            }
        }
        let signature = Signature { name: function.name.clone(), arity: function.params.len() };
        proof {
            assert(sigs_view(signatures@.push(signature)) =~= sigs_view(signatures@).push((signature.name@, signature.arity as nat)));
        }
        signatures.push(signature);
        index += 1;
    }
    proof {
        assert(sigs_view(signatures@) =~= sigs_of(fs));
    }
    let main_name = String::from_str("main");
    match find_signature(&signatures, &main_name) {
        None => return Err(SemanticError::new(String::from_str("program must define main()"))),
        Some(i) => {
            proof {
                assert(sigs_view(signatures@)[i as int].1 == signatures@[i as int].arity as nat);
            }
            if signatures[i].arity != 0 {
                return Err(SemanticError::new(String::from_str("main must have zero parameters")));
            }
        },
    }
    let mut resolved: Vec<ir::Function> = Vec::new();
    let mut index: usize = 0;
    proof {
        assert(ir::ifunctions_view(resolved@) =~= Seq::<IFunction>::empty());
    }
    while index < functions.len()
        invariant
            fs == program@,
            functions == &program.functions,
            fs == ast::functions_view(functions@),
            fs.len() == functions@.len(),
            within_limits(fs),
            analyze_spec(fs) == resolve_functions_spec(sigs_of(fs), fs, fs.len() as int),
            sigs_view(signatures@) == sigs_of(fs),
            index <= functions@.len(),
            resolve_functions_spec(sigs_of(fs), fs, index as int)
                == Ok::<Seq<IFunction>, Seq<char>>(ir::ifunctions_view(resolved@)),
        decreases functions@.len() - index,
    {
        proof {
            assert(function_within_limits(fs[index as int]));
        }
        let mut resolver = Resolver::new(&signatures);
        match resolver.resolve_function(ir::FunctionId(index), &functions[index]) {
            Ok(function) => {
                proof {
                    assert(ir::ifunctions_view(resolved@.push(function)) =~= ir::ifunctions_view(resolved@).push(function@));
                }
                resolved.push(function);
            },
            Err(e) => {
                proof {
                    assert(fs[index as int] == functions@[index as int]@);
                    assert(resolve_functions_spec(sigs_of(fs), fs, index + 1) == Err::<Seq<IFunction>, Seq<char>>(e@));
                    lemma_functions_prefix_err(sigs_of(fs), fs, index + 1, fs.len() as int);
                }
                return Err(e);
            },
        }
        index += 1;
    }
    Ok(ir::Program { functions: resolved })
}

/// Whether `statement` has at most `budget` statements, and if so, how many
/// of the budget are left after it.
fn stmt_size_within(statement: &ast::Stmt, budget: usize) -> (r: Option<usize>)
    ensures
        match r {
            Some(rest) => stmt_size(statement@) <= budget && rest == budget - stmt_size(statement@),
            None => stmt_size(statement@) > budget,
        },
    decreases statement, 1int,
{
    if budget == 0 {
        return None;
    }
    let budget = budget - 1;
    match statement {
        ast::Stmt::Block(block) => block_size_within(block, budget),
        ast::Stmt::If { then_branch, else_branch, .. } => match stmt_size_within(then_branch, budget) {
            None => None,
            Some(rest) => match else_branch {
                Some(e) => stmt_size_within(e, rest),
                None => Some(rest),
            },
        },
        ast::Stmt::While { body, .. } => stmt_size_within(body, budget),
        ast::Stmt::For { body, .. } => stmt_size_within(body, budget),
        _ => Some(budget),
    }
}

/// Whether the statements of `block` are at most `budget`, and if so, how many
/// of the budget are left after them.
fn block_size_within(block: &ast::Block, budget: usize) -> (r: Option<usize>)
    ensures
        match r {
            Some(rest) => stmts_size(block@) <= budget && rest == budget - stmts_size(block@),
            None => stmts_size(block@) > budget,
        },
    decreases block, 0int,
{
    let ghost bv = block@;
    proof {
        ast::lemma_stmts_view(block.statements@);
        assert(bv.subrange(0, 0) =~= Seq::<SStmt>::empty());
    }
    let mut rest = budget;
    let mut i: usize = 0;
    while i < block.statements.len()
        invariant
            bv == block@,
            bv.len() == block.statements@.len(),
            forall|k: int| 0 <= k < bv.len() ==> #[trigger] bv[k] == ast::stmt_view(block.statements@[k]),
            i <= block.statements@.len(),
            stmts_size(bv.subrange(0, i as int)) <= budget,
            rest == budget - stmts_size(bv.subrange(0, i as int)),
        decreases block.statements@.len() - i,
    {
        proof {
            assert(bv.subrange(0, i + 1).subrange(0, i as int) =~= bv.subrange(0, i as int));
            vstd::std_specs::vec::axiom_vec_index_decreases(block.statements, i as int);
            assert(decreases_to!(*block => block.statements[i as int]));
        }
        match stmt_size_within(&block.statements[i], rest) {
            Some(r) => {
                rest = r;
            },
            None => {
                proof {
                    lemma_stmts_size_prefix(bv, i + 1);
                }
                return None;
            },
        }
        i += 1;
    }
    proof {
        assert(bv.subrange(0, i as int) =~= bv);
    }
    Some(rest)
}

/// Whether the program is small enough for `analyze`: in every function the
/// parameters and statements together stay under `max_locals()`.
pub fn within_machine_limits(program: &ast::Program) -> (r: bool)
    ensures
        r == within_limits(program@),
{
    let ghost fs = program@;
    let mut i: usize = 0;
    while i < program.functions.len()
        invariant
            fs == program@,
            fs.len() == program.functions@.len(),
            i <= program.functions@.len(),
            forall|k: int| 0 <= k < i ==> function_within_limits(#[trigger] fs[k]),
        decreases program.functions@.len() - i,
    {
        let function = &program.functions[i];
        proof {
            assert(fs[i as int] == function@);
        }
        let limit: usize = usize::MAX / 16;
        if function.params.len() > limit {
            return false;
        }
        match block_size_within(&function.body, limit - function.params.len()) {
            Some(_) => {},
            None => {
                return false;
            },
        }
        i += 1;
    }
    true
}

} // verus!
