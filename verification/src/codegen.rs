//! Code generation: RISC-V assembly from the resolved IR, one stack frame per
//! function.
//!
//! After the prologue `s0` holds the caller's stack pointer; the return address
//! is saved at `-8(s0)`, the caller's `s0` at `-16(s0)`, and local `i` lives at
//! `-(24 + 8 * i)(s0)`. Expressions are evaluated on a value stack of 16-byte
//! entries below the frame.
use vstd::prelude::*;
use crate::ir::{self, BinaryOp, IExpr, IFunction, IStmt};
use crate::text::decimal;

verus! {

pub const STACK_ALIGNMENT: usize = 16;
pub const SAVED_REGISTERS_SIZE: usize = 16;
pub const LOCAL_SIZE: usize = 8;
pub const VALUE_STACK_SIZE: usize = 16;

/// The size of the frame of a function with `local_count` locals: the saved
/// registers and the slots, rounded up to a multiple of 16.
pub open spec fn frame_size(local_count: nat) -> nat {
    ((16 + 8 * local_count + 15) / 16 * 16) as nat
}

/// The distance below `s0` of the slot of local `local`.
pub open spec fn local_offset(local: nat) -> nat {
    16 + 8 * (local + 1)
}

/// What a function's code is generated with: its id, which names its labels,
/// and the names of all functions, by id.
pub struct GenCtx {
    pub fid: nat,
    pub symbols: Seq<Seq<char>>,
}

pub open spec fn nl() -> Seq<char> {
    "\n"@
}

/// Pushes `register` on the value stack: `addi sp,sp,-16` and `sd <register>,0(sp)`.
pub open spec fn push_text(register: Seq<char>) -> Seq<char> {
    "addi sp,sp,-"@ + decimal(VALUE_STACK_SIZE as nat) + nl() + "sd "@ + register + ",0(sp)"@ + nl()
}

/// Pops the top of the value stack into `register`: `ld <register>,0(sp)` and `addi sp,sp,16`.
pub open spec fn pop_text(register: Seq<char>) -> Seq<char> {
    "ld "@ + register + ",0(sp)"@ + nl() + discard_text()
}

/// Drops the top of the value stack: `addi sp,sp,16`.
pub open spec fn discard_text() -> Seq<char> {
    "addi sp,sp,"@ + decimal(VALUE_STACK_SIZE as nat) + nl()
}

/// The name of argument register `i`.
pub open spec fn arg_register(i: nat) -> Seq<char> {
    "a"@ + decimal(i)
}

/// Combines `t0` (left operand) and `t1` (right operand) into `t0`.
pub open spec fn op_text(op: BinaryOp) -> Seq<char> {
    match op {
        BinaryOp::Add => "add t0,t0,t1"@ + nl(),
        BinaryOp::Sub => "sub t0,t0,t1"@ + nl(),
        BinaryOp::Mul => "mul t0,t0,t1"@ + nl(),
        BinaryOp::Div => "div t0,t0,t1"@ + nl(),
        BinaryOp::Less => "slt t0,t0,t1"@ + nl(),
        BinaryOp::LessEqual => "slt t0,t1,t0"@ + nl() + "xori t0,t0,1"@ + nl(),
        BinaryOp::Equal => "sub t0,t0,t1"@ + nl() + "seqz t0,t0"@ + nl(),
        BinaryOp::NotEqual => "sub t0,t0,t1"@ + nl() + "snez t0,t0"@ + nl(),
    }
}

/// Pops the top `n` values into `a(n-1)`, ..., `a0`.
pub open spec fn pop_args_text(n: nat) -> Seq<char>
    decreases n,
{
    if n == 0 {
        seq![]
    } else {
        pop_text(arg_register((n - 1) as nat)) + pop_args_text((n - 1) as nat)
    }
}

/// The code of an expression: it leaves the value on top of the value stack.
pub open spec fn expr_text(c: GenCtx, e: IExpr) -> Seq<char>
    decreases e,
{
    match e {
        IExpr::Number(n) => "li t0,"@ + decimal(n as nat) + nl() + push_text("t0"@),
        IExpr::Local(l) => "ld t0,-"@ + decimal(local_offset(l)) + "(s0)"@ + nl() + push_text("t0"@),
        IExpr::Assign { target, value } => expr_text(c, *value) + "ld t0,0(sp)"@ + nl() + "sd t0,-"@
            + decimal(local_offset(target)) + "(s0)"@ + nl(),
        IExpr::Binary { op, lhs, rhs } => expr_text(c, *lhs) + expr_text(c, *rhs) + pop_text("t1"@)
            + "ld t0,0(sp)"@ + nl() + op_text(op) + "sd t0,0(sp)"@ + nl(),
        IExpr::Call { function, args } => args_text(c, args) + pop_args_text(args.len()) + "call "@
            + c.symbols[function as int] + nl() + push_text("a0"@),
        IExpr::Addr(l) => "addi t0,s0,-"@ + decimal(local_offset(l)) + nl() + push_text("t0"@),
        IExpr::Deref(operand) => expr_text(c, *operand) + "ld t0,0(sp)"@ + nl() + "ld t0,0(t0)"@ + nl()
            + "sd t0,0(sp)"@ + nl(),
    }
}

/// The code of the arguments of a call, in order.
pub open spec fn args_text(c: GenCtx, args: Seq<IExpr>) -> Seq<char>
    decreases args,
{
    if args.len() == 0 {
        seq![]
    } else {
        args_text(c, args.subrange(0, args.len() - 1)) + expr_text(c, args[args.len() - 1])
    }
}

/// The suffix `<function id>_<label>` of a label name.
pub open spec fn label_suffix(c: GenCtx, label: nat) -> Seq<char> {
    decimal(c.fid) + "_"@ + decimal(label)
}

/// The code of an optional expression whose value is dropped.
pub open spec fn opt_discard_text(c: GenCtx, e: Option<IExpr>) -> Seq<char> {
    match e {
        Some(x) => expr_text(c, x) + discard_text(),
        None => seq![],
    }
}

/// The line that defines label `<name><suffix>`.
pub open spec fn label_line(c: GenCtx, name: Seq<char>, label: nat) -> Seq<char> {
    name + label_suffix(c, label) + ":"@ + nl()
}

/// The line `<instruction><suffix>`, an instruction that jumps to a label.
pub open spec fn jump_line(c: GenCtx, instruction: Seq<char>, label: nat) -> Seq<char> {
    instruction + label_suffix(c, label) + nl()
}

/// Pops a condition and jumps to `.Lend<suffix>` when it is zero.
pub open spec fn branch_end_text(c: GenCtx, label: nat) -> Seq<char> {
    pop_text("t0"@) + jump_line(c, "beqz t0,.Lend"@, label)
}

/// The code of a statement, with `label` the first free label number, and the
/// first free label number after it.
pub open spec fn stmt_text(c: GenCtx, label: nat, s: IStmt) -> (Seq<char>, nat)
    decreases s, 0int,
{
    match s {
        IStmt::Expr(e) => (expr_text(c, e) + discard_text(), label),
        IStmt::Return(e) => (expr_text(c, e) + pop_text("a0"@) + "j .Lreturn"@ + decimal(c.fid) + nl(), label),
        IStmt::Block(b) => block_text(c, label, b),
        IStmt::If { condition, then_branch, else_branch } => {
            let (then_text, l1) = stmt_text(c, label + 1, *then_branch);
            match else_branch {
                Some(e) => {
                    let (else_text, l2) = stmt_text(c, l1, *e);
                    (
                        expr_text(c, condition) + pop_text("t0"@) + jump_line(c, "beqz t0,.Lelse"@, label) + then_text
                            + jump_line(c, "j .Lend"@, label) + label_line(c, ".Lelse"@, label) + else_text
                            + label_line(c, ".Lend"@, label),
                        l2,
                    )
                },
                None => (
                    expr_text(c, condition) + branch_end_text(c, label) + then_text + label_line(c, ".Lend"@, label),
                    l1,
                ),
            }
        },
        IStmt::While { condition, body } => {
            let (body_text, l1) = stmt_text(c, label + 1, *body);
            (
                label_line(c, ".Lbegin"@, label) + expr_text(c, condition) + branch_end_text(c, label) + body_text
                    + jump_line(c, "j .Lbegin"@, label) + label_line(c, ".Lend"@, label),
                l1,
            )
        },
        IStmt::For { init, condition, update, body } => {
            let (body_text, l1) = stmt_text(c, label + 1, *body);
            (
                opt_discard_text(c, init) + label_line(c, ".Lbegin"@, label) + match condition {
                    Some(x) => expr_text(c, x) + branch_end_text(c, label),
                    None => seq![],
                } + body_text + opt_discard_text(c, update) + jump_line(c, "j .Lbegin"@, label) + label_line(
                    c,
                    ".Lend"@,
                    label,
                ),
                l1,
            )
        },
        IStmt::Decl { .. } => (seq![], label),
    }
}

/// The code of a sequence of statements, in order.
pub open spec fn block_text(c: GenCtx, label: nat, b: Seq<IStmt>) -> (Seq<char>, nat)
    decreases b, 1int,
{
    if b.len() == 0 {
        (seq![], label)
    } else {
        let (t1, l1) = block_text(c, label, b.subrange(0, b.len() - 1));
        let (t2, l2) = stmt_text(c, l1, b[b.len() - 1]);
        (t1 + t2, l2)
    }
}

/// The code that stores the first `n` parameters from their argument registers
/// into their slots.
pub open spec fn param_stores_text(params: Seq<nat>, n: int) -> Seq<char>
    decreases n,
{
    if n <= 0 {
        seq![]
    } else {
        param_stores_text(params, n - 1) + "sd "@ + arg_register((n - 1) as nat) + ",-"@ + decimal(
            local_offset(params[n - 1]),
        ) + "(s0)"@ + nl()
    }
}

/// The prologue of a function: its label, the frame allocation, the saved
/// return address and frame pointer, and the new frame pointer.
pub open spec fn prologue_text(f: IFunction) -> Seq<char> {
    let size = frame_size(f.local_count);
    f.name + ":"@ + nl() + "addi sp,sp,-"@ + decimal(size) + nl() + "sd ra,"@ + decimal((size - 8) as nat) + "(sp)"@
        + nl() + "sd s0,"@ + decimal((size - 16) as nat) + "(sp)"@ + nl() + "addi s0,sp,"@ + decimal(size) + nl()
}

/// The end of a function: the fall-through return value 0, the return label,
/// the restored registers and the return.
pub open spec fn epilogue_text(f: IFunction) -> Seq<char> {
    let size = frame_size(f.local_count);
    "li a0,0"@ + nl() + ".Lreturn"@ + decimal(f.id) + ":"@ + nl() + "ld ra,"@ + decimal((size - 8) as nat) + "(sp)"@
        + nl() + "ld s0,"@ + decimal((size - 16) as nat) + "(sp)"@ + nl() + "addi sp,sp,"@ + decimal(size) + nl()
        + "jr ra"@ + nl()
}

/// The code of a function: prologue, parameter stores, body, and epilogue.
pub open spec fn function_text(symbols: Seq<Seq<char>>, f: IFunction) -> Seq<char> {
    prologue_text(f) + param_stores_text(f.params, f.params.len() as int) + block_text(
        GenCtx { fid: f.id, symbols },
        0,
        f.body,
    ).0 + epilogue_text(f)
}

/// The names of the functions of a program, by id.
pub open spec fn symbols_of(p: Seq<IFunction>) -> Seq<Seq<char>> {
    p.map_values(|f: IFunction| f.name)
}

/// The code of the first `n` functions.
pub open spec fn functions_text(p: Seq<IFunction>, n: int) -> Seq<char>
    decreases n,
{
    if n <= 0 {
        seq![]
    } else {
        functions_text(p, n - 1) + function_text(symbols_of(p), p[n - 1])
    }
}

/// The assembly of a program.
pub open spec fn program_text(p: Seq<IFunction>) -> Seq<char> {
    ".globl main"@ + nl() + functions_text(p, p.len() as int)
}

/// A statement uses at most one label for each statement in it.
pub proof fn lemma_stmt_labels(c: GenCtx, label: nat, s: IStmt)
    ensures
        label <= stmt_text(c, label, s).1 <= label + ir::istmt_size(s),
    decreases s, 0int,
{
    match s {
        IStmt::Block(b) => lemma_block_labels(c, label, b),
        IStmt::If { then_branch, else_branch, .. } => {
            lemma_stmt_labels(c, label + 1, *then_branch);
            match else_branch {
                Some(e) => lemma_stmt_labels(c, stmt_text(c, label + 1, *then_branch).1, *e),
                None => {},
            }
        },
        IStmt::While { body, .. } => lemma_stmt_labels(c, label + 1, *body),
        IStmt::For { body, .. } => lemma_stmt_labels(c, label + 1, *body),
        _ => {},
    }
}

/// A sequence of statements uses at most one label for each statement in it.
pub proof fn lemma_block_labels(c: GenCtx, label: nat, b: Seq<IStmt>)
    ensures
        label <= block_text(c, label, b).1 <= label + ir::istmts_size(b),
    decreases b, 1int,
{
    if b.len() > 0 {
        lemma_block_labels(c, label, b.subrange(0, b.len() - 1));
        lemma_stmt_labels(c, block_text(c, label, b.subrange(0, b.len() - 1)).1, b[b.len() - 1]);
    }
}

/// The label numbers that the `if`, `while` and `for` statements in `s` are
/// given, in order, when its code starts at label number `label`.
pub open spec fn stmt_labels(c: GenCtx, label: nat, s: IStmt) -> Seq<nat>
    decreases s, 0int,
{
    match s {
        IStmt::Block(b) => block_labels(c, label, b),
        IStmt::If { then_branch, else_branch, .. } => seq![label] + stmt_labels(c, label + 1, *then_branch)
            + match else_branch {
            Some(e) => stmt_labels(c, stmt_text(c, label + 1, *then_branch).1, *e),
            None => seq![],
        },
        IStmt::While { body, .. } => seq![label] + stmt_labels(c, label + 1, *body),
        IStmt::For { body, .. } => seq![label] + stmt_labels(c, label + 1, *body),
        _ => seq![],
    }
}

/// The label numbers of the branching statements of a sequence of statements.
pub open spec fn block_labels(c: GenCtx, label: nat, b: Seq<IStmt>) -> Seq<nat>
    decreases b, 1int,
{
    if b.len() == 0 {
        seq![]
    } else {
        let prefix = b.subrange(0, b.len() - 1);
        block_labels(c, label, prefix) + stmt_labels(c, block_text(c, label, prefix).1, b[b.len() - 1])
    }
}

/// The numbers are strictly increasing and lie in `[lo, hi)`.
pub open spec fn increasing_within(s: Seq<nat>, lo: nat, hi: nat) -> bool {
    &&& forall|k: int| 0 <= k < s.len() ==> lo <= #[trigger] s[k] < hi
    &&& forall|k1: int, k2: int| 0 <= k1 < k2 < s.len() ==> #[trigger] s[k1] < #[trigger] s[k2]
}

proof fn lemma_increasing_concat(a: Seq<nat>, b: Seq<nat>, lo: nat, mid: nat, hi: nat)
    requires
        lo <= mid <= hi,
        increasing_within(a, lo, mid),
        increasing_within(b, mid, hi),
    ensures
        increasing_within(a + b, lo, hi),
{
    let s = a + b;
    assert forall|k1: int, k2: int| 0 <= k1 < k2 < s.len() implies #[trigger] s[k1] < #[trigger] s[k2] by {
        if k2 < a.len() {
            assert(s[k1] == a[k1] && s[k2] == a[k2]);
        } else if k1 >= a.len() {
            assert(s[k1] == b[k1 - a.len()] && s[k2] == b[k2 - a.len()]);
        } else {
            assert(s[k1] == a[k1] && s[k2] == b[k2 - a.len()]);
        }
    }
    assert forall|k: int| 0 <= k < s.len() implies lo <= #[trigger] s[k] < hi by {
        if k < a.len() {
            assert(s[k] == a[k]);
        } else {
            assert(s[k] == b[k - a.len()]);
        }
    }
}

/// Within a function no two branching statements share a label number: the
/// numbers a statement gives out are strictly increasing and lie between the
/// first free number and the first free number after it. With the function id
/// in every label name, labels are unique in the whole program.
pub proof fn stmt_labels_are_distinct(c: GenCtx, label: nat, s: IStmt)
    ensures
        increasing_within(stmt_labels(c, label, s), label, stmt_text(c, label, s).1),
    decreases s, 0int,
{
    lemma_stmt_labels(c, label, s);
    match s {
        IStmt::Block(b) => block_labels_are_distinct(c, label, b),
        IStmt::If { then_branch, else_branch, .. } => {
            let l1 = stmt_text(c, label + 1, *then_branch).1;
            stmt_labels_are_distinct(c, label + 1, *then_branch);
            lemma_stmt_labels(c, label + 1, *then_branch);
            let own: Seq<nat> = seq![label];
            lemma_increasing_concat(own, stmt_labels(c, label + 1, *then_branch), label, label + 1, l1);
            match else_branch {
                Some(e) => {
                    stmt_labels_are_distinct(c, l1, *e);
                    lemma_stmt_labels(c, l1, *e);
                    lemma_increasing_concat(
                        own + stmt_labels(c, label + 1, *then_branch),
                        stmt_labels(c, l1, *e),
                        label,
                        l1,
                        stmt_text(c, l1, *e).1,
                    );
                },
                None => {
                    assert(own + stmt_labels(c, label + 1, *then_branch) + seq![] =~= own + stmt_labels(c, label + 1, *then_branch));
                },
            }
        },
        IStmt::While { body, .. } => {
            stmt_labels_are_distinct(c, label + 1, *body);
            lemma_stmt_labels(c, label + 1, *body);
            let own: Seq<nat> = seq![label];
            lemma_increasing_concat(own, stmt_labels(c, label + 1, *body), label, label + 1, stmt_text(c, label + 1, *body).1);
        },
        IStmt::For { body, .. } => {
            stmt_labels_are_distinct(c, label + 1, *body);
            lemma_stmt_labels(c, label + 1, *body);
            let own: Seq<nat> = seq![label];
            lemma_increasing_concat(own, stmt_labels(c, label + 1, *body), label, label + 1, stmt_text(c, label + 1, *body).1);
        },
        _ => {},
    }
}

/// The label numbers of a sequence of statements are strictly increasing and
/// lie between the first free number and the first free number after it.
pub proof fn block_labels_are_distinct(c: GenCtx, label: nat, b: Seq<IStmt>)
    ensures
        increasing_within(block_labels(c, label, b), label, block_text(c, label, b).1),
    decreases b, 1int,
{
    if b.len() > 0 {
        let prefix = b.subrange(0, b.len() - 1);
        let l1 = block_text(c, label, prefix).1;
        block_labels_are_distinct(c, label, prefix);
        stmt_labels_are_distinct(c, l1, b[b.len() - 1]);
        lemma_block_labels(c, label, prefix);
        lemma_stmt_labels(c, l1, b[b.len() - 1]);
        lemma_increasing_concat(block_labels(c, label, prefix), stmt_labels(c, l1, b[b.len() - 1]), label, l1, block_text(c, label, b).1);
    }
}

/// The number of `if`, `while` and `for` statements in `s`, nested ones included.
pub open spec fn branch_count(s: IStmt) -> nat
    decreases s, 0int,
{
    match s {
        IStmt::Block(b) => block_branch_count(b),
        IStmt::If { then_branch, else_branch, .. } => 1 + branch_count(*then_branch) + match else_branch {
            Some(e) => branch_count(*e),
            None => 0,
        },
        IStmt::While { body, .. } => 1 + branch_count(*body),
        IStmt::For { body, .. } => 1 + branch_count(*body),
        _ => 0,
    }
}

/// The number of `if`, `while` and `for` statements in a sequence of statements.
pub open spec fn block_branch_count(b: Seq<IStmt>) -> nat
    decreases b, 1int,
{
    if b.len() == 0 {
        0
    } else {
        block_branch_count(b.subrange(0, b.len() - 1)) + branch_count(b[b.len() - 1])
    }
}

/// Each `if`, `while` and `for` statement takes exactly one fresh label
/// number: the code of `s` advances the label counter by the number of them,
/// and gives out that many label numbers.
pub proof fn stmt_label_count(c: GenCtx, label: nat, s: IStmt)
    ensures
        stmt_text(c, label, s).1 == label + branch_count(s),
        stmt_labels(c, label, s).len() == branch_count(s),
    decreases s, 0int,
{
    match s {
        IStmt::Block(b) => block_label_count(c, label, b),
        IStmt::If { then_branch, else_branch, .. } => {
            stmt_label_count(c, label + 1, *then_branch);
            if let Some(e) = else_branch {
                stmt_label_count(c, stmt_text(c, label + 1, *then_branch).1, *e);
            }
        },
        IStmt::While { body, .. } => stmt_label_count(c, label + 1, *body),
        IStmt::For { body, .. } => stmt_label_count(c, label + 1, *body),
        _ => {},
    }
}

/// The code of a sequence of statements advances the label counter by the
/// number of `if`, `while` and `for` statements in it.
pub proof fn block_label_count(c: GenCtx, label: nat, b: Seq<IStmt>)
    ensures
        block_text(c, label, b).1 == label + block_branch_count(b),
        block_labels(c, label, b).len() == block_branch_count(b),
    decreases b, 1int,
{
    if b.len() > 0 {
        let prefix = b.subrange(0, b.len() - 1);
        block_label_count(c, label, prefix);
        stmt_label_count(c, block_text(c, label, prefix).1, b[b.len() - 1]);
    }
}

/// The code of `for (init; condition; update) body` in order: the
/// initialisation, the loop label, the test that leaves the loop when the
/// condition is zero, the body, then the update (whose value is dropped), the
/// jump back and the end label. The update thus runs after the body on every
/// iteration, as in `init; while (condition) { body; update; }`.
pub proof fn for_runs_update_after_body(
    c: GenCtx,
    label: nat,
    init: Option<IExpr>,
    condition: Option<IExpr>,
    update: IExpr,
    body: IStmt,
)
    ensures
        stmt_text(c, label, IStmt::For { init, condition, update: Some(update), body: Box::new(body) }).0 == opt_discard_text(
            c,
            init,
        ) + label_line(c, ".Lbegin"@, label) + match condition {
            Some(x) => expr_text(c, x) + pop_text("t0"@) + jump_line(c, "beqz t0,.Lend"@, label),
            None => seq![],
        } + stmt_text(c, label + 1, body).0 + expr_text(c, update) + discard_text() + jump_line(c, "j .Lbegin"@, label)
            + label_line(c, ".Lend"@, label),
        stmt_text(c, label, IStmt::For { init, condition, update: Some(update), body: Box::new(body) }).1 == stmt_text(
            c,
            label + 1,
            body,
        ).1,
{
    let s = IStmt::For { init, condition, update: Some(update), body: Box::new(body) };
    let head = opt_discard_text(c, init) + label_line(c, ".Lbegin"@, label) + match condition {
        Some(x) => expr_text(c, x) + branch_end_text(c, label),
        None => seq![],
    };
    let test = match condition {
        Some(x) => expr_text(c, x) + pop_text("t0"@) + jump_line(c, "beqz t0,.Lend"@, label),
        None => Seq::<char>::empty(),
    };
    assert(head =~= opt_discard_text(c, init) + label_line(c, ".Lbegin"@, label) + test);
    assert(stmt_text(c, label, s).0 =~= opt_discard_text(c, init) + label_line(c, ".Lbegin"@, label) + test
        + stmt_text(c, label + 1, body).0 + expr_text(c, update) + discard_text() + jump_line(c, "j .Lbegin"@, label)
        + label_line(c, ".Lend"@, label));
}

/// The frame of a function with `n` locals keeps the stack 16-byte aligned and
/// holds every local: the slot of local `i` (eight bytes at `-local_offset(i)`
/// from `s0`) lies inside the frame, below the saved `ra` at `-8(s0)` and `s0`
/// at `-16(s0)`, and apart from the slot of every other local.
pub proof fn frame_layout(n: nat, i: nat, j: nat)
    requires
        i < n,
        j < n,
    ensures
        frame_size(n) % 16 == 0,
        frame_size(n) >= 16 + 8 * n,
        local_offset(i) == 24 + 8 * i,
        24 <= local_offset(i) <= frame_size(n),
        i != j ==> local_offset(i) + 8 <= local_offset(j) || local_offset(j) + 8 <= local_offset(i),
{
    assert((16 + 8 * n + 15) / 16 * 16 >= 16 + 8 * n) by (nonlinear_arith)
        requires
            n >= 0,
    ;
    assert(((16 + 8 * n + 15) / 16 * 16) % 16 == 0) by (nonlinear_arith);
}

/// The layout of a function's stack frame.
struct FrameLayout {
    size: usize,
}

impl FrameLayout {
    fn new(local_count: usize) -> (r: Self)
        requires
            local_count <= ir::max_locals(),
        ensures
            r.size == frame_size(local_count as nat),
    {
        let required = SAVED_REGISTERS_SIZE + local_count * LOCAL_SIZE;
        Self { size: (required + STACK_ALIGNMENT - 1) / STACK_ALIGNMENT * STACK_ALIGNMENT }
    }

    fn local_offset(&self, local: ir::LocalId) -> (r: usize)
        requires
            local.0 <= ir::max_locals(),
        ensures
            r == local_offset(local.0 as nat),
    {
        SAVED_REGISTERS_SIZE + LOCAL_SIZE * (local.0 + 1)
    }
}

/// The texts of a sequence of string slices.
pub open spec fn strs_view(s: Seq<&str>) -> Seq<Seq<char>> {
    s.map_values(|x: &str| x@)
}

/// The name of argument register `i`.
fn arg_register_name(i: usize) -> (s: String)
    ensures
        s@ == arg_register(i as nat),
{
    let mut s = String::from_str("a");
    crate::text::push_decimal(&mut s, i as u64);
    s
}

/// Generates the code of one function.
struct FunctionGenerator<'a> {
    output: String,
    symbols: &'a Vec<&'a str>,
    function: &'a ir::Function,
    frame: FrameLayout,
    next_label: usize,
    /// The number of values on the value stack.
    stack_depth: Ghost<nat>,
}

impl<'a> FunctionGenerator<'a> {
    spec fn ctx(&self) -> GenCtx {
        GenCtx { fid: self.function.id.0 as nat, symbols: strs_view(self.symbols@) }
    }

    spec fn wf(&self) -> bool {
        &&& self.function.local_count <= ir::max_locals()
        &&& self.frame.size == frame_size(self.function.local_count as nat)
    }

    /// Everything but the output, the label counter and the stack depth is as in `other`.
    spec fn same_setting(&self, other: &Self) -> bool {
        &&& self.symbols == other.symbols
        &&& self.function == other.function
        &&& self.frame == other.frame
    }

    fn emit(&mut self, text: &str)
        ensures
            final(self).output@ == old(self).output@ + text@,
            final(self).same_setting(old(self)),
            final(self).next_label == old(self).next_label,
            final(self).stack_depth == old(self).stack_depth,
    {
        self.output.append(text);
    }

    fn emit_decimal(&mut self, n: u64)
        ensures
            final(self).output@ == old(self).output@ + decimal(n as nat),
            final(self).same_setting(old(self)),
            final(self).next_label == old(self).next_label,
            final(self).stack_depth == old(self).stack_depth,
    {
        crate::text::push_decimal(&mut self.output, n);
    }

    fn push_from(&mut self, register: &str)
        ensures
            final(self).output@ == old(self).output@ + push_text(register@),
            final(self).same_setting(old(self)),
            final(self).next_label == old(self).next_label,
            final(self).stack_depth@ == old(self).stack_depth@ + 1,
    {
        self.emit("addi sp,sp,-");
        self.emit_decimal(VALUE_STACK_SIZE as u64);
        self.emit("\n");
        self.emit("sd ");
        self.emit(register);
        self.emit(",0(sp)");
        self.emit("\n");
        self.stack_depth = Ghost(self.stack_depth@ + 1);
        proof {
            assert(self.output@ =~= old(self).output@ + push_text(register@));
        }
    }

    fn discard_value(&mut self)
        requires
            old(self).stack_depth@ > 0,
        ensures
            final(self).output@ == old(self).output@ + discard_text(),
            final(self).same_setting(old(self)),
            final(self).next_label == old(self).next_label,
            final(self).stack_depth@ == old(self).stack_depth@ - 1,
    {
        self.emit("addi sp,sp,");
        self.emit_decimal(VALUE_STACK_SIZE as u64);
        self.emit("\n");
        self.stack_depth = Ghost((self.stack_depth@ - 1) as nat);
        proof {
            assert(self.output@ =~= old(self).output@ + discard_text());
        }
    }

    fn pop_into(&mut self, register: &str)
        requires
            old(self).stack_depth@ > 0,
        ensures
            final(self).output@ == old(self).output@ + pop_text(register@),
            final(self).same_setting(old(self)),
            final(self).next_label == old(self).next_label,
            final(self).stack_depth@ == old(self).stack_depth@ - 1,
    {
        self.emit("ld ");
        self.emit(register);
        self.emit(",0(sp)");
        self.emit("\n");
        self.discard_value();
        proof {
            assert(self.output@ =~= old(self).output@ + pop_text(register@));
        }
    }

    fn emit_op(&mut self, op: BinaryOp)
        ensures
            final(self).output@ == old(self).output@ + op_text(op),
            final(self).same_setting(old(self)),
            final(self).next_label == old(self).next_label,
            final(self).stack_depth == old(self).stack_depth,
    {
        match op {
            BinaryOp::Add => self.emit("add t0,t0,t1"),
            BinaryOp::Sub => self.emit("sub t0,t0,t1"),
            BinaryOp::Mul => self.emit("mul t0,t0,t1"),
            BinaryOp::Div => self.emit("div t0,t0,t1"),
            BinaryOp::Less => self.emit("slt t0,t0,t1"),
            BinaryOp::LessEqual => {
                self.emit("slt t0,t1,t0");
                self.emit("\n");
                self.emit("xori t0,t0,1");
            },
            BinaryOp::Equal => {
                self.emit("sub t0,t0,t1");
                self.emit("\n");
                self.emit("seqz t0,t0");
            },
            BinaryOp::NotEqual => {
                self.emit("sub t0,t0,t1");
                self.emit("\n");
                self.emit("snez t0,t0");
            },
        }
        self.emit("\n");
        proof {
            assert(self.output@ =~= old(self).output@ + op_text(op));
        }
    }

    #[verifier::rlimit(40)]
    fn generate_expr(&mut self, expr: &ir::Expr)
        requires
            old(self).wf(),
            ir::iexpr_wf(expr@, old(self).symbols@.len() as nat, ir::local_id_bound()),
        ensures
            final(self).output@ == old(self).output@ + expr_text(old(self).ctx(), expr@),
            final(self).same_setting(old(self)),
            final(self).next_label == old(self).next_label,
            final(self).stack_depth@ == old(self).stack_depth@ + 1,
        decreases expr,
    {
        let ghost c = self.ctx();
        match expr {
            ir::Expr::Number(number) => {
                self.emit("li t0,");
                self.emit_decimal(*number);
                self.emit("\n");
                self.push_from("t0");
                proof {
                    assert(self.output@ =~= old(self).output@ + expr_text(c, expr@));
                }
            },
            ir::Expr::Local(local) => {
                let offset = self.frame.local_offset(*local);
                self.emit("ld t0,-");
                self.emit_decimal(offset as u64);
                self.emit("(s0)");
                self.emit("\n");
                self.push_from("t0");
                proof {
                    assert(self.output@ =~= old(self).output@ + expr_text(c, expr@));
                }
            },
            ir::Expr::Assign { target, value } => {
                self.generate_expr(value);
                let offset = self.frame.local_offset(*target);
                self.emit("ld t0,0(sp)");
                self.emit("\n");
                self.emit("sd t0,-");
                self.emit_decimal(offset as u64);
                self.emit("(s0)");
                self.emit("\n");
                proof {
                    assert(self.output@ =~= old(self).output@ + expr_text(c, expr@));
                }
            },
            ir::Expr::Binary { op, lhs, rhs } => {
                self.generate_expr(lhs);
                self.generate_expr(rhs);
                self.pop_into("t1");
                self.emit("ld t0,0(sp)");
                self.emit("\n");
                self.emit_op(*op);
                self.emit("sd t0,0(sp)");
                self.emit("\n");
                proof {
                    assert(self.output@ =~= old(self).output@ + expr_text(c, expr@));
                }
            },
            ir::Expr::Call { function, args } => {
                self.generate_call(expr, *function, args);
            },
            ir::Expr::Addr(local) => {
                let offset = self.frame.local_offset(*local);
                self.emit("addi t0,s0,-");
                self.emit_decimal(offset as u64);
                self.emit("\n");
                self.push_from("t0");
                proof {
                    assert(self.output@ =~= old(self).output@ + expr_text(c, expr@));
                }
            },
            ir::Expr::Deref(operand) => {
                self.generate_expr(operand);
                self.emit("ld t0,0(sp)");
                self.emit("\n");
                self.emit("ld t0,0(t0)");
                self.emit("\n");
                self.emit("sd t0,0(sp)");
                self.emit("\n");
                proof {
                    assert(self.output@ =~= old(self).output@ + expr_text(c, expr@));
                }
            },
        }
    }

    fn generate_call(&mut self, expr: &ir::Expr, function: ir::FunctionId, args: &Vec<ir::Expr>)
        requires
            *expr == (ir::Expr::Call { function, args: *args }),
            old(self).wf(),
            ir::iexpr_wf(expr@, old(self).symbols@.len() as nat, ir::local_id_bound()),
        ensures
            final(self).output@ == old(self).output@ + expr_text(old(self).ctx(), expr@),
            final(self).same_setting(old(self)),
            final(self).next_label == old(self).next_label,
            final(self).stack_depth@ == old(self).stack_depth@ + 1,
        decreases *args,
    {
        let ghost c = self.ctx();
        let ghost av = ir::iexprs_view(args@);
        proof {
            ir::lemma_iexprs_view(args@);
        }
        let ghost base = self.output@;
        let ghost depth = self.stack_depth@;
        let mut i: usize = 0;
        proof {
            assert(av.subrange(0, 0) =~= Seq::<IExpr>::empty());
            assert(self.output@ =~= base + args_text(c, av.subrange(0, 0)));
        }
        while i < args.len()
            invariant
                *expr == (ir::Expr::Call { function, args: *args }),
                self.wf(),
                self.same_setting(old(self)),
                self.next_label == old(self).next_label,
                c == self.ctx(),
                av == ir::iexprs_view(args@),
                av.len() == args@.len(),
                forall|k: int| 0 <= k < args@.len() ==> #[trigger] av[k] == ir::iexpr_view(args@[k]),
                ir::iexprs_wf(av, self.symbols@.len() as nat, ir::local_id_bound()),
                i <= args@.len(),
                self.output@ == base + args_text(c, av.subrange(0, i as int)),
                self.stack_depth@ == depth + i,
            decreases args@.len() - i,
        {
            proof {
                vstd::std_specs::vec::axiom_vec_index_decreases(*args, i as int);
                assert(decreases_to!(*args => args[i as int]));
                assert(av.subrange(0, i + 1).subrange(0, i as int) =~= av.subrange(0, i as int));
                lemma_iexprs_wf_index(av, self.symbols@.len() as nat, ir::local_id_bound(), i as int);
            }
            self.generate_expr(&args[i]);
            i += 1;
            proof {
                assert(self.output@ =~= base + args_text(c, av.subrange(0, i as int)));
            }
        }
        proof {
            assert(av.subrange(0, i as int) =~= av);
        }
        let ghost after_args = self.output@;
        let mut register = args.len();
        while register > 0
            invariant
                self.wf(),
                self.same_setting(old(self)),
                self.next_label == old(self).next_label,
                register <= args@.len(),
                self.output@ + pop_args_text(register as nat) == after_args + pop_args_text(args@.len() as nat),
                self.stack_depth@ == depth + register,
            decreases register,
        {
            register -= 1;
            let name = arg_register_name(register);
            let ghost before = self.output@;
            self.pop_into(name.as_str());
            proof {
                assert(before + pop_args_text((register + 1) as nat) =~= self.output@ + pop_args_text(register as nat));
            }
        }
        self.emit("call ");
        self.emit(self.symbols[function.0]);
        self.emit("\n");
        self.push_from("a0");
        proof {
            assert(self.output@ =~= old(self).output@ + expr_text(c, expr@));
        }
        }
}

/// Each expression of a well-formed sequence is well formed.
proof fn lemma_iexprs_wf_index(s: Seq<IExpr>, nf: nat, nl: nat, i: int)
    requires
        ir::iexprs_wf(s, nf, nl),
        0 <= i < s.len(),
    ensures
        ir::iexpr_wf(s[i], nf, nl),
    decreases s.len(),
{
    if i < s.len() - 1 {
        lemma_iexprs_wf_index(s.subrange(0, s.len() - 1), nf, nl, i);
    }
}

/// A prefix of a sequence of statements has at most as many statements as the whole.
proof fn lemma_istmts_size_prefix(b: Seq<IStmt>, i: int)
    requires
        0 <= i <= b.len(),
    ensures
        ir::istmts_size(b.subrange(0, i)) <= ir::istmts_size(b),
    decreases b.len() - i,
{
    if i == b.len() {
        assert(b.subrange(0, i) =~= b);
    } else {
        lemma_istmts_size_prefix(b, i + 1);
        assert(b.subrange(0, i + 1).subrange(0, i) =~= b.subrange(0, i));
    }
}

/// Each statement of a well-formed sequence is well formed.
proof fn lemma_istmts_wf_index(s: Seq<IStmt>, nf: nat, nl: nat, i: int)
    requires
        ir::istmts_wf(s, nf, nl),
        0 <= i < s.len(),
    ensures
        ir::istmt_wf(s[i], nf, nl),
    decreases s.len(),
{
    if i < s.len() - 1 {
        lemma_istmts_wf_index(s.subrange(0, s.len() - 1), nf, nl, i);
    }
}

impl<'a> FunctionGenerator<'a> {
    fn new_label(&mut self) -> (label: usize)
        requires
            old(self).next_label < usize::MAX,
        ensures
            label == old(self).next_label,
            final(self).next_label == old(self).next_label + 1,
            final(self).output == old(self).output,
            final(self).same_setting(old(self)),
            final(self).stack_depth == old(self).stack_depth,
    {
        let label = self.next_label;
        self.next_label += 1;
        label
    }

    fn emit_label_suffix(&mut self, label: usize)
        ensures
            final(self).output@ == old(self).output@ + label_suffix(old(self).ctx(), label as nat),
            final(self).same_setting(old(self)),
            final(self).next_label == old(self).next_label,
            final(self).stack_depth == old(self).stack_depth,
    {
        self.emit_decimal(self.function.id.0 as u64);
        self.emit("_");
        self.emit_decimal(label as u64);
        proof {
            assert(self.output@ =~= old(self).output@ + label_suffix(old(self).ctx(), label as nat));
        }
    }

    fn emit_label_line(&mut self, name: &str, label: usize)
        ensures
            final(self).output@ == old(self).output@ + label_line(old(self).ctx(), name@, label as nat),
            final(self).same_setting(old(self)),
            final(self).next_label == old(self).next_label,
            final(self).stack_depth == old(self).stack_depth,
    {
        self.emit(name);
        self.emit_label_suffix(label);
        self.emit(":");
        self.emit("\n");
        proof {
            assert(self.output@ =~= old(self).output@ + label_line(old(self).ctx(), name@, label as nat));
        }
    }

    fn emit_jump_line(&mut self, instruction: &str, label: usize)
        ensures
            final(self).output@ == old(self).output@ + jump_line(old(self).ctx(), instruction@, label as nat),
            final(self).same_setting(old(self)),
            final(self).next_label == old(self).next_label,
            final(self).stack_depth == old(self).stack_depth,
    {
        self.emit(instruction);
        self.emit_label_suffix(label);
        self.emit("\n");
        proof {
            assert(self.output@ =~= old(self).output@ + jump_line(old(self).ctx(), instruction@, label as nat));
        }
    }

    fn emit_branch_end(&mut self, label: usize)
        requires
            old(self).stack_depth@ > 0,
        ensures
            final(self).output@ == old(self).output@ + branch_end_text(old(self).ctx(), label as nat),
            final(self).same_setting(old(self)),
            final(self).next_label == old(self).next_label,
            final(self).stack_depth@ == old(self).stack_depth@ - 1,
    {
        self.pop_into("t0");
        self.emit_jump_line("beqz t0,.Lend", label);
        proof {
            assert(self.output@ =~= old(self).output@ + branch_end_text(old(self).ctx(), label as nat));
        }
    }

    fn generate_opt_discard(&mut self, expr: &Option<ir::Expr>)
        requires
            old(self).wf(),
            ir::opt_iexpr_wf(ir::opt_iexpr_view(*expr), old(self).symbols@.len() as nat, ir::local_id_bound()),
        ensures
            final(self).output@ == old(self).output@ + opt_discard_text(old(self).ctx(), ir::opt_iexpr_view(*expr)),
            final(self).same_setting(old(self)),
            final(self).next_label == old(self).next_label,
            final(self).stack_depth == old(self).stack_depth,
    {
        if let Some(expr) = expr {
            self.generate_expr(expr);
            self.discard_value();
        }
        proof {
            assert(self.output@ =~= old(self).output@ + opt_discard_text(old(self).ctx(), ir::opt_iexpr_view(*expr)));
        }
    }

    fn generate_opt_condition(&mut self, condition: &Option<ir::Expr>, label: usize)
        requires
            old(self).wf(),
            ir::opt_iexpr_wf(ir::opt_iexpr_view(*condition), old(self).symbols@.len() as nat, ir::local_id_bound()),
        ensures
            final(self).output@ == old(self).output@ + match ir::opt_iexpr_view(*condition) {
                Some(x) => expr_text(old(self).ctx(), x) + branch_end_text(old(self).ctx(), label as nat),
                None => seq![],
            },
            final(self).same_setting(old(self)),
            final(self).next_label == old(self).next_label,
            final(self).stack_depth == old(self).stack_depth,
    {
        if let Some(condition) = condition {
            self.generate_expr(condition);
            self.emit_branch_end(label);
        }
        proof {
            assert(self.output@ =~= old(self).output@ + match ir::opt_iexpr_view(*condition) {
                Some(x) => expr_text(old(self).ctx(), x) + branch_end_text(old(self).ctx(), label as nat),
                None => seq![],
            });
        }
    }

    fn generate_stmt(&mut self, statement: &ir::Stmt)
        requires
            old(self).wf(),
            ir::istmt_wf(statement@, old(self).symbols@.len() as nat, ir::local_id_bound()),
            old(self).next_label + ir::istmt_size(statement@) <= usize::MAX,
        ensures
            final(self).output@ == old(self).output@ + stmt_text(old(self).ctx(), old(self).next_label as nat, statement@).0,
            final(self).next_label == stmt_text(old(self).ctx(), old(self).next_label as nat, statement@).1,
            final(self).same_setting(old(self)),
            final(self).stack_depth == old(self).stack_depth,
        decreases statement, 1int,
    {
        let ghost c = self.ctx();
        let ghost l0 = self.next_label as nat;
        match statement {
            ir::Stmt::Expr(expr) => {
                self.generate_expr(expr);
                self.discard_value();
                proof {
                    assert(self.output@ =~= old(self).output@ + stmt_text(c, l0, statement@).0);
                }
            },
            ir::Stmt::Return(expr) => {
                self.generate_expr(expr);
                self.pop_into("a0");
                self.emit("j .Lreturn");
                self.emit_decimal(self.function.id.0 as u64);
                self.emit("\n");
                proof {
                    assert(self.output@ =~= old(self).output@ + stmt_text(c, l0, statement@).0);
                }
            },
            ir::Stmt::Block(block) => self.generate_block(block),
            ir::Stmt::If { .. } => self.generate_if(statement),
            ir::Stmt::While { .. } => self.generate_while(statement),
            ir::Stmt::For { .. } => self.generate_for(statement),
            ir::Stmt::Decl { .. } => {
                proof {
                    assert(self.output@ =~= old(self).output@ + stmt_text(c, l0, statement@).0);
                }
            },
        }
    }

    fn generate_if(&mut self, statement: &ir::Stmt)
        requires
            *statement is If,
            old(self).wf(),
            ir::istmt_wf(statement@, old(self).symbols@.len() as nat, ir::local_id_bound()),
            old(self).next_label + ir::istmt_size(statement@) <= usize::MAX,
        ensures
            final(self).output@ == old(self).output@ + stmt_text(old(self).ctx(), old(self).next_label as nat, statement@).0,
            final(self).next_label == stmt_text(old(self).ctx(), old(self).next_label as nat, statement@).1,
            final(self).same_setting(old(self)),
            final(self).stack_depth == old(self).stack_depth,
        decreases statement, 0int,
    {
        let ghost c = self.ctx();
        let ghost l0 = self.next_label as nat;
        match statement {
            ir::Stmt::If { condition, then_branch, else_branch } => {
                let label = self.new_label();
                self.generate_expr(condition);
                self.pop_into("t0");
                let then_stmt: &ir::Stmt = then_branch;
                proof {
                    lemma_stmt_labels(c, l0 + 1, then_stmt@);
                }
                match else_branch {
                    Some(else_branch) => {
                        let else_stmt: &ir::Stmt = else_branch;
                        self.emit_jump_line("beqz t0,.Lelse", label);
                        self.generate_stmt(then_stmt);
                        self.emit_jump_line("j .Lend", label);
                        self.emit_label_line(".Lelse", label);
                        self.generate_stmt(else_stmt);
                    },
                    None => {
                        self.emit_jump_line("beqz t0,.Lend", label);
                        self.generate_stmt(then_stmt);
                    },
                }
                self.emit_label_line(".Lend", label);
                proof {
                    assert(self.output@ =~= old(self).output@ + stmt_text(c, l0, statement@).0);
                }
            },
            _ => {},
        }
    }

    fn generate_while(&mut self, statement: &ir::Stmt)
        requires
            *statement is While,
            old(self).wf(),
            ir::istmt_wf(statement@, old(self).symbols@.len() as nat, ir::local_id_bound()),
            old(self).next_label + ir::istmt_size(statement@) <= usize::MAX,
        ensures
            final(self).output@ == old(self).output@ + stmt_text(old(self).ctx(), old(self).next_label as nat, statement@).0,
            final(self).next_label == stmt_text(old(self).ctx(), old(self).next_label as nat, statement@).1,
            final(self).same_setting(old(self)),
            final(self).stack_depth == old(self).stack_depth,
        decreases statement, 0int,
    {
        let ghost c = self.ctx();
        let ghost l0 = self.next_label as nat;
        match statement {
            ir::Stmt::While { condition, body } => {
                let body_stmt: &ir::Stmt = body;
                let label = self.new_label();
                self.emit_label_line(".Lbegin", label);
                self.generate_expr(condition);
                self.emit_branch_end(label);
                self.generate_stmt(body_stmt);
                self.emit_jump_line("j .Lbegin", label);
                self.emit_label_line(".Lend", label);
                proof {
                    assert(self.output@ =~= old(self).output@ + stmt_text(c, l0, statement@).0);
                }
            },
            _ => {},
        }
    }

    #[verifier::rlimit(60)]
    fn generate_for(&mut self, statement: &ir::Stmt)
        requires
            *statement is For,
            old(self).wf(),
            ir::istmt_wf(statement@, old(self).symbols@.len() as nat, ir::local_id_bound()),
            old(self).next_label + ir::istmt_size(statement@) <= usize::MAX,
        ensures
            final(self).output@ == old(self).output@ + stmt_text(old(self).ctx(), old(self).next_label as nat, statement@).0,
            final(self).next_label == stmt_text(old(self).ctx(), old(self).next_label as nat, statement@).1,
            final(self).same_setting(old(self)),
            final(self).stack_depth == old(self).stack_depth,
        decreases statement, 0int,
    {
        let ghost c = self.ctx();
        let ghost l0 = self.next_label as nat;
        match statement {
            ir::Stmt::For { init, condition, update, body } => {
                let body_stmt: &ir::Stmt = body;
                self.generate_opt_discard(init);
                let label = self.new_label();
                self.emit_label_line(".Lbegin", label);
                self.generate_opt_condition(condition, label);
                self.generate_stmt(body_stmt);
                self.generate_opt_discard(update);
                self.emit_jump_line("j .Lbegin", label);
                self.emit_label_line(".Lend", label);
                proof {
                    assert(self.output@ =~= old(self).output@ + stmt_text(c, l0, statement@).0);
                }
            },
            _ => {},
        }
    }

    fn generate_block(&mut self, block: &ir::Block)
        requires
            old(self).wf(),
            ir::istmts_wf(block@, old(self).symbols@.len() as nat, ir::local_id_bound()),
            old(self).next_label + ir::istmts_size(block@) <= usize::MAX,
        ensures
            final(self).output@ == old(self).output@ + block_text(old(self).ctx(), old(self).next_label as nat, block@).0,
            final(self).next_label == block_text(old(self).ctx(), old(self).next_label as nat, block@).1,
            final(self).same_setting(old(self)),
            final(self).stack_depth == old(self).stack_depth,
        decreases block, 1int,
    {
        let ghost c = self.ctx();
        let ghost l0 = self.next_label as nat;
        let ghost bv = block@;
        let ghost base = self.output@;
        proof {
            ir::lemma_istmts_view(block.statements@);
            assert(bv.subrange(0, 0) =~= Seq::<IStmt>::empty());
            assert(self.output@ =~= base + block_text(c, l0, bv.subrange(0, 0)).0);
        }
        let mut i: usize = 0;
        while i < block.statements.len()
            invariant
                self.wf(),
                self.same_setting(old(self)),
                self.stack_depth == old(self).stack_depth,
                c == self.ctx(),
                l0 == old(self).next_label as nat,
                base == old(self).output@,
                bv == block@,
                bv.len() == block.statements@.len(),
                forall|k: int| 0 <= k < bv.len() ==> #[trigger] bv[k] == ir::istmt_view(block.statements@[k]),
                ir::istmts_wf(bv, self.symbols@.len() as nat, ir::local_id_bound()),
                l0 + ir::istmts_size(bv) <= usize::MAX,
                i <= block.statements@.len(),
                self.output@ == base + block_text(c, l0, bv.subrange(0, i as int)).0,
                self.next_label == block_text(c, l0, bv.subrange(0, i as int)).1,
            decreases block.statements@.len() - i,
        {
            proof {
                assert(bv.subrange(0, i + 1).subrange(0, i as int) =~= bv.subrange(0, i as int));
                lemma_istmts_size_prefix(bv, i + 1);
                lemma_block_labels(c, l0, bv.subrange(0, i as int));
                lemma_istmts_wf_index(bv, self.symbols@.len() as nat, ir::local_id_bound(), i as int);
                vstd::std_specs::vec::axiom_vec_index_decreases(block.statements, i as int);
                assert(decreases_to!(*block => block.statements[i as int]));
            }
            self.generate_stmt(&block.statements[i]);
            i += 1;
            proof {
                assert(self.output@ =~= base + block_text(c, l0, bv.subrange(0, i as int)).0);
            }
        }
        proof {
            assert(bv.subrange(0, i as int) =~= bv);
        }
    }
}

/// A frame holds at least the two saved registers.
proof fn lemma_frame_size(n: nat)
    requires
        n <= ir::max_locals(),
    ensures
        16 <= frame_size(n) <= usize::MAX,
        frame_size(n) >= 16 + 8 * n,
{
    assert((16 + 8 * n + 15) / 16 >= 1) by (nonlinear_arith)
        requires
            n >= 0,
    ;
    assert((16 + 8 * n + 15) / 16 * 16 <= 16 + 8 * n + 15) by (nonlinear_arith)
        requires
            n >= 0,
    ;
    assert((16 + 8 * n + 15) / 16 * 16 >= 16 + 8 * n) by (nonlinear_arith)
        requires
            n >= 0,
    ;
    assert((16 + 8 * n + 15) / 16 * 16 >= 16) by (nonlinear_arith)
        requires
            (16 + 8 * n + 15) / 16 >= 1,
    ;
}

impl<'a> FunctionGenerator<'a> {
    fn new(output: String, symbols: &'a Vec<&'a str>, function: &'a ir::Function) -> (g: Self)
        requires
            function.local_count <= ir::max_locals(),
        ensures
            g.output == output,
            g.symbols == symbols,
            g.function == function,
            g.next_label == 0,
            g.stack_depth@ == 0,
            g.wf(),
    {
        Self {
            output,
            symbols,
            function,
            frame: FrameLayout::new(function.local_count),
            next_label: 0,
            stack_depth: Ghost(0),
        }
    }

    #[verifier::spinoff_prover]
    #[verifier::rlimit(30)]
    fn emit_prologue(&mut self)
        requires
            old(self).wf(),
        ensures
            final(self).output@ == old(self).output@ + prologue_text(old(self).function@),
            final(self).same_setting(old(self)),
            final(self).next_label == old(self).next_label,
            final(self).stack_depth == old(self).stack_depth,
    {
        proof {
            lemma_frame_size(self.function.local_count as nat);
        }
        let size = self.frame.size;
        self.emit(self.function.name.as_str());
        self.emit(":");
        self.emit("\n");
        self.emit("addi sp,sp,-");
        self.emit_decimal(size as u64);
        self.emit("\n");
        self.emit("sd ra,");
        self.emit_decimal((size - 8) as u64);
        self.emit("(sp)");
        self.emit("\n");
        self.emit("sd s0,");
        self.emit_decimal((size - 16) as u64);
        self.emit("(sp)");
        self.emit("\n");
        self.emit("addi s0,sp,");
        self.emit_decimal(size as u64);
        self.emit("\n");
        proof {
            assert(self.output@ =~= old(self).output@ + prologue_text(old(self).function@));
        }
    }

    #[verifier::spinoff_prover]
    #[verifier::rlimit(30)]
    fn emit_epilogue(&mut self)
        requires
            old(self).wf(),
        ensures
            final(self).output@ == old(self).output@ + epilogue_text(old(self).function@),
            final(self).same_setting(old(self)),
            final(self).next_label == old(self).next_label,
            final(self).stack_depth == old(self).stack_depth,
    {
        proof {
            lemma_frame_size(self.function.local_count as nat);
        }
        let size = self.frame.size;
        self.emit("li a0,0");
        self.emit("\n");
        self.emit(".Lreturn");
        self.emit_decimal(self.function.id.0 as u64);
        self.emit(":");
        self.emit("\n");
        self.emit("ld ra,");
        self.emit_decimal((size - 8) as u64);
        self.emit("(sp)");
        self.emit("\n");
        self.emit("ld s0,");
        self.emit_decimal((size - 16) as u64);
        self.emit("(sp)");
        self.emit("\n");
        self.emit("addi sp,sp,");
        self.emit_decimal(size as u64);
        self.emit("\n");
        self.emit("jr ra");
        self.emit("\n");
        proof {
            assert(self.output@ =~= old(self).output@ + epilogue_text(old(self).function@));
        }
    }

    fn emit_param_stores(&mut self)
        requires
            old(self).wf(),
            forall|i: int| 0 <= i < old(self).function.params@.len() ==> #[trigger] old(self).function.params@[i].0 < ir::local_id_bound(),
        ensures
            final(self).output@ == old(self).output@ + param_stores_text(
                ir::locals_view(old(self).function.params@),
                old(self).function.params@.len() as int,
            ),
            final(self).same_setting(old(self)),
            final(self).next_label == old(self).next_label,
            final(self).stack_depth == old(self).stack_depth,
    {
        let ghost pv = ir::locals_view(self.function.params@);
        let ghost base = self.output@;
        let mut register: usize = 0;
        while register < self.function.params.len()
            invariant
                self.wf(),
                self.same_setting(old(self)),
                self.next_label == old(self).next_label,
                self.stack_depth == old(self).stack_depth,
                pv == ir::locals_view(self.function.params@),
                pv.len() == self.function.params@.len(),
                forall|i: int| 0 <= i < self.function.params@.len() ==> #[trigger] self.function.params@[i].0 < ir::local_id_bound(),
                register <= self.function.params@.len(),
                self.output@ == base + param_stores_text(pv, register as int),
                base == old(self).output@,
            decreases self.function.params@.len() - register,
        {
            let local = self.function.params[register];
            let offset = self.frame.local_offset(local);
            let name = arg_register_name(register);
            self.emit("sd ");
            self.emit(name.as_str());
            self.emit(",-");
            self.emit_decimal(offset as u64);
            self.emit("(s0)");
            self.emit("\n");
            register += 1;
            proof {
                assert(pv[register - 1] == local.0 as nat);
                assert(self.output@ =~= base + param_stores_text(pv, register as int));
            }
        }
    }

    /// Appends the code of the function to the output.
    fn generate(&mut self)
        requires
            old(self).wf(),
            old(self).next_label == 0,
            old(self).stack_depth@ == 0,
            ir::ifunction_wf(old(self).function@, old(self).symbols@.len() as nat),
        ensures
            final(self).output@ == old(self).output@ + function_text(strs_view(old(self).symbols@), old(self).function@),
            final(self).stack_depth@ == 0,
    {
        let ghost f = self.function@;
        proof {
            assert forall|i: int| 0 <= i < self.function.params@.len() implies #[trigger] self.function.params@[i].0 < ir::local_id_bound() by {
                assert(f.params[i] == self.function.params@[i].0 as nat);
            }
        }
        self.emit_prologue();
        self.emit_param_stores();
        self.generate_block(&self.function.body);
        self.emit_epilogue();
        proof {
            assert(self.output@ =~= old(self).output@ + function_text(strs_view(old(self).symbols@), f));
        }
    }
}

/// The assembly of a program: `.globl main`, then the code of each function in order.
pub fn generate(program: &ir::Program) -> (s: String)
    requires
        ir::program_wf(program@),
    ensures
        s@ == program_text(program@),
{
    let ghost p = program@;
    let mut symbols: Vec<&str> = Vec::new();
    let mut i: usize = 0;
    while i < program.functions.len()
        invariant
            p == program@,
            p.len() == program.functions@.len(),
            i <= program.functions@.len(),
            symbols@.len() == i,
            forall|k: int| 0 <= k < i ==> #[trigger] strs_view(symbols@)[k] == p[k].name,
        decreases program.functions@.len() - i,
    {
        let ghost prev = symbols@;
        symbols.push(program.functions[i].name.as_str());
        proof {
            assert(strs_view(symbols@) =~= strs_view(prev).push(p[i as int].name));
        }
        i += 1;
    }
    proof {
        assert(strs_view(symbols@) =~= symbols_of(p));
    }
    let mut output = String::from_str(".globl main");
    output.append("\n");
    let mut i: usize = 0;
    while i < program.functions.len()
        invariant
            p == program@,
            p.len() == program.functions@.len(),
            ir::program_wf(p),
            strs_view(symbols@) == symbols_of(p),
            symbols@.len() == p.len(),
            i <= program.functions@.len(),
            output@ == ".globl main"@ + nl() + functions_text(p, i as int),
        decreases program.functions@.len() - i,
    {
        let function = &program.functions[i];
        proof {
            assert(p[i as int] == function@);
            assert(ir::ifunction_wf(p[i as int], p.len()));
        }
        let mut generator = FunctionGenerator::new(output, &symbols, function);
        generator.generate();
        output = generator.output;
        i += 1;
        proof {
            assert(output@ =~= ".globl main"@ + nl() + functions_text(p, i as int));
        }
    }
    output
}

} // verus!
