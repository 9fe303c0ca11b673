//! What the generated code does to the value stack, read off the text: each
//! line `addi sp,sp,-16` pushes a value and each line `addi sp,sp,16` pops
//! one. The code of an expression pushes exactly one value; the code of a
//! statement leaves the value stack as it found it.
use vstd::prelude::*;
use crate::codegen::{
    GenCtx, args_text, block_text, branch_end_text, discard_text, expr_text, jump_line, label_line, label_suffix, nl,
    op_text, opt_discard_text, pop_args_text, pop_text, push_text, stmt_text, arg_register, local_offset,
};
use crate::ir::{self, IExpr, IStmt};
use crate::text::{decimal, digit_char};

verus! {

/// The text holds no line break.
pub open spec fn no_newline(s: Seq<char>) -> bool {
    forall|i: int| 0 <= i < s.len() ==> s[i] != '\n'
}

/// The text is a sequence of whole lines: empty, or ending with a line break.
pub open spec fn whole_lines(s: Seq<char>) -> bool {
    s.len() == 0 || s[s.len() - 1] == '\n'
}

/// The values one line pushes on the value stack (a pop counts as -1).
pub open spec fn line_effect(line: Seq<char>) -> int {
    if line == "addi sp,sp,-16"@ {
        1
    } else if line == "addi sp,sp,16"@ {
        -1
    } else {
        0
    }
}

/// The position of the first line break at or after `i`, or the length.
pub open spec fn next_newline(s: Seq<char>, i: int) -> int
    decreases s.len() - i,
{
    if i < 0 || i >= s.len() {
        s.len() as int
    } else if s[i] == '\n' {
        i
    } else {
        next_newline(s, i + 1)
    }
}

/// The values a text pushes on the value stack, line by line.
pub open spec fn value_stack_effect(s: Seq<char>) -> int
    decreases s.len(),
{
    let k = next_newline(s, 0);
    if s.len() == 0 {
        0
    } else if 0 <= k < s.len() {
        line_effect(s.subrange(0, k)) + value_stack_effect(s.subrange(k + 1, s.len() as int))
    } else {
        line_effect(s)
    }
}

proof fn lemma_next_newline(s: Seq<char>, i: int)
    requires
        0 <= i <= s.len(),
    ensures
        i <= next_newline(s, i) <= s.len(),
        next_newline(s, i) < s.len() ==> s[next_newline(s, i)] == '\n',
        forall|j: int| i <= j < next_newline(s, i) ==> s[j] != '\n',
    decreases s.len() - i,
{
    if i < s.len() && s[i] != '\n' {
        lemma_next_newline(s, i + 1);
    }
}

proof fn lemma_next_newline_concat(a: Seq<char>, b: Seq<char>, i: int)
    requires
        0 <= i <= a.len(),
        next_newline(a, i) < a.len(),
    ensures
        next_newline(a + b, i) == next_newline(a, i),
    decreases a.len() - i,
{
    if i < a.len() && a[i] != '\n' {
        lemma_next_newline_concat(a, b, i + 1);
    }
}

proof fn lemma_next_newline_none(l: Seq<char>, i: int)
    requires
        0 <= i <= l.len(),
        no_newline(l),
    ensures
        next_newline(l + nl(), i) == l.len(),
    decreases l.len() - i,
{
    reveal_strlit("\n");
    if i < l.len() {
        lemma_next_newline_none(l, i + 1);
    }
}

/// The effect of whole lines followed by more text is the sum of the effects.
proof fn lemma_effect_concat(a: Seq<char>, b: Seq<char>)
    requires
        whole_lines(a),
    ensures
        value_stack_effect(a + b) == value_stack_effect(a) + value_stack_effect(b),
        whole_lines(b) ==> whole_lines(a + b),
    decreases a.len(),
{
    if a.len() == 0 {
        assert(a + b =~= b);
    } else {
        lemma_next_newline(a, 0);
        let k = next_newline(a, 0);
        assert(k < a.len()) by {
            if k == a.len() {
                lemma_next_newline(a, 0);
                assert(a[a.len() - 1] != '\n');
            }
        }
        lemma_next_newline_concat(a, b, 0);
        let rest = a.subrange(k + 1, a.len() as int);
        assert((a + b).subrange(0, k) =~= a.subrange(0, k));
        assert((a + b).subrange(k + 1, (a + b).len() as int) =~= rest + b);
        lemma_effect_concat(rest, b);
    }
}

/// One line and its line break.
proof fn lemma_one_line(l: Seq<char>)
    requires
        no_newline(l),
    ensures
        value_stack_effect(l + nl()) == line_effect(l),
        whole_lines(l + nl()),
{
    reveal_strlit("\n");
    lemma_next_newline_none(l, 0);
    assert((l + nl()).subrange(0, l.len() as int) =~= l);
    assert((l + nl()).subrange(l.len() as int + 1, (l + nl()).len() as int) =~= Seq::<char>::empty());
    assert(value_stack_effect(Seq::<char>::empty()) == 0);
    assert((l + nl()).len() == l.len() + 1);
    assert(next_newline(l + nl(), 0) == l.len());
}

proof fn lemma_no_newline_concat(a: Seq<char>, b: Seq<char>)
    requires
        no_newline(a),
        no_newline(b),
    ensures
        no_newline(a + b),
{
    assert forall|i: int| 0 <= i < (a + b).len() implies (a + b)[i] != '\n' by {
        if i >= a.len() {
            assert((a + b)[i] == b[i - a.len()]);
        }
    }
}

/// Decimal renderings are digits.
proof fn lemma_decimal_digits(n: nat)
    ensures
        decimal(n).len() >= 1,
        forall|i: int| 0 <= i < decimal(n).len() ==> '0' <= #[trigger] decimal(n)[i] <= '9',
        no_newline(decimal(n)),
    decreases n,
{
    if n >= 10 {
        lemma_decimal_digits(n / 10);
        let d = n % 10;
        assert('0' <= digit_char(d) <= '9');
    } else {
        assert('0' <= digit_char(n) <= '9');
    }
}

/// A line that neither pushes nor pops: it differs from both stack lines in
/// its first character, or (for `add`/`addi` lines) in its fourth or sixth.
proof fn lemma_quiet_line(l: Seq<char>)
    requires
        no_newline(l),
        l.len() >= 6 ==> l[0] != 'a' || l[3] == ' ' || l[5] == 't',
    ensures
        value_stack_effect(l + nl()) == 0,
        whole_lines(l + nl()),
{
    reveal_strlit("addi sp,sp,-16");
    reveal_strlit("addi sp,sp,16");
    lemma_one_line(l);
    assert(l != "addi sp,sp,-16"@) by {
        if l == "addi sp,sp,-16"@ {
            assert(l[0] == 'a' && l[3] == 'i' && l[5] == 's');
        }
    }
    assert(l != "addi sp,sp,16"@) by {
        if l == "addi sp,sp,16"@ {
            assert(l[0] == 'a' && l[3] == 'i' && l[5] == 's');
        }
    }
}

proof fn lemma_sixteen()
    ensures
        decimal(16) =~= "16"@,
{
    reveal_strlit("16");
    assert(decimal(1) =~= seq!['1']);
    assert(digit_char(6) == '6');
}

/// `push_text` pushes one value.
proof fn lemma_push_text(r: Seq<char>)
    requires
        no_newline(r),
    ensures
        value_stack_effect(push_text(r)) == 1,
        whole_lines(push_text(r)),
{
    reveal_strlit("addi sp,sp,-");
    reveal_strlit("addi sp,sp,-16");
    reveal_strlit("sd ");
    reveal_strlit(",0(sp)");
    lemma_sixteen();
    let p = "addi sp,sp,-"@ + decimal(16);
    let q = "sd "@ + r + ",0(sp)"@;
    reveal_strlit("16");
    assert(decimal(16) == "16"@);
    assert(p.len() == 14);
    assert(p[12] == '1');
    assert(p[0] == 'a');
    assert(p =~= "addi sp,sp,-16"@);
    assert(push_text(r) =~= (p + nl()) + (q + nl()));
    assert(no_newline(p));
    lemma_no_newline_concat("sd "@, r);
    lemma_no_newline_concat("sd "@ + r, ",0(sp)"@);
    lemma_one_line(p);
    lemma_quiet_line(q);
    lemma_effect_concat(p + nl(), q + nl());
}

/// `discard_text` pops one value.
proof fn lemma_discard_text()
    ensures
        value_stack_effect(discard_text()) == -1,
        whole_lines(discard_text()),
{
    reveal_strlit("addi sp,sp,");
    reveal_strlit("addi sp,sp,16");
    lemma_sixteen();
    let p = "addi sp,sp,"@ + decimal(16);
    reveal_strlit("16");
    assert(decimal(16) == "16"@);
    assert(p.len() == 13);
    assert(p[11] == '1');
    assert(p[0] == 'a');
    assert(p =~= "addi sp,sp,16"@);
    reveal_strlit("addi sp,sp,-16");
    assert(discard_text() =~= p + nl());
    assert(no_newline(p));
    lemma_one_line(p);
}

/// `pop_text` pops one value.
proof fn lemma_pop_text(r: Seq<char>)
    requires
        no_newline(r),
    ensures
        value_stack_effect(pop_text(r)) == -1,
        whole_lines(pop_text(r)),
{
    reveal_strlit("ld ");
    reveal_strlit(",0(sp)");
    let q = "ld "@ + r + ",0(sp)"@;
    lemma_no_newline_concat("ld "@, r);
    lemma_no_newline_concat("ld "@ + r, ",0(sp)"@);
    lemma_quiet_line(q);
    lemma_discard_text();
    lemma_effect_concat(q + nl(), discard_text());
}

/// A line made of a literal start and a rest without line breaks, which
/// neither pushes nor pops.
proof fn lemma_quiet_parts(a: Seq<char>, b: Seq<char>)
    requires
        no_newline(a),
        no_newline(b),
        a.len() >= 6,
        a[0] != 'a' || a[3] == ' ' || a[5] == 't',
    ensures
        value_stack_effect(a + b + nl()) == 0,
        whole_lines(a + b + nl()),
{
    lemma_no_newline_concat(a, b);
    lemma_quiet_line(a + b);
}

proof fn lemma_cat(a: Seq<char>, b: Seq<char>)
    requires
        whole_lines(a),
        whole_lines(b),
    ensures
        value_stack_effect(a + b) == value_stack_effect(a) + value_stack_effect(b),
        whole_lines(a + b),
{
    lemma_effect_concat(a, b);
}

proof fn lemma_no_newline3(a: Seq<char>, b: Seq<char>, c: Seq<char>)
    requires
        no_newline(a),
        no_newline(b),
        no_newline(c),
    ensures
        no_newline(a + b + c),
{
    lemma_no_newline_concat(a, b);
    lemma_no_newline_concat(a + b, c);
}

proof fn lemma_arg_register(i: nat)
    ensures
        no_newline(arg_register(i)),
{
    reveal_strlit("a");
    lemma_decimal_digits(i);
    lemma_no_newline_concat("a"@, decimal(i));
}

/// Popping `n` arguments pops `n` values.
proof fn lemma_pop_args_text(n: nat)
    ensures
        value_stack_effect(pop_args_text(n)) == -(n as int),
        whole_lines(pop_args_text(n)),
    decreases n,
{
    if n > 0 {
        lemma_arg_register((n - 1) as nat);
        lemma_pop_text(arg_register((n - 1) as nat));
        lemma_pop_args_text((n - 1) as nat);
        lemma_cat(pop_text(arg_register((n - 1) as nat)), pop_args_text((n - 1) as nat));
    }
}

/// The instructions that combine two operands neither push nor pop.
proof fn lemma_op_text(op: ir::BinaryOp)
    ensures
        value_stack_effect(op_text(op)) == 0,
        whole_lines(op_text(op)),
{
    reveal_strlit("add t0,t0,t1");
    reveal_strlit("sub t0,t0,t1");
    reveal_strlit("mul t0,t0,t1");
    reveal_strlit("div t0,t0,t1");
    reveal_strlit("slt t0,t0,t1");
    reveal_strlit("slt t0,t1,t0");
    reveal_strlit("xori t0,t0,1");
    reveal_strlit("seqz t0,t0");
    reveal_strlit("snez t0,t0");
    match op {
        ir::BinaryOp::Add => {
            lemma_quiet_line("add t0,t0,t1"@);
        },
        ir::BinaryOp::Sub => lemma_quiet_line("sub t0,t0,t1"@),
        ir::BinaryOp::Mul => lemma_quiet_line("mul t0,t0,t1"@),
        ir::BinaryOp::Div => lemma_quiet_line("div t0,t0,t1"@),
        ir::BinaryOp::Less => lemma_quiet_line("slt t0,t0,t1"@),
        ir::BinaryOp::LessEqual => {
            lemma_quiet_line("slt t0,t1,t0"@);
            lemma_quiet_line("xori t0,t0,1"@);
            lemma_cat("slt t0,t1,t0"@ + nl(), "xori t0,t0,1"@ + nl());
            assert(op_text(op) =~= ("slt t0,t1,t0"@ + nl()) + ("xori t0,t0,1"@ + nl()));
        },
        ir::BinaryOp::Equal => {
            lemma_quiet_line("sub t0,t0,t1"@);
            lemma_quiet_line("seqz t0,t0"@);
            lemma_cat("sub t0,t0,t1"@ + nl(), "seqz t0,t0"@ + nl());
            assert(op_text(op) =~= ("sub t0,t0,t1"@ + nl()) + ("seqz t0,t0"@ + nl()));
        },
        ir::BinaryOp::NotEqual => {
            lemma_quiet_line("sub t0,t0,t1"@);
            lemma_quiet_line("snez t0,t0"@);
            lemma_cat("sub t0,t0,t1"@ + nl(), "snez t0,t0"@ + nl());
            assert(op_text(op) =~= ("sub t0,t0,t1"@ + nl()) + ("snez t0,t0"@ + nl()));
        },
    }
}

/// The function names contain no line break.
pub open spec fn symbols_single_line(c: GenCtx) -> bool {
    forall|i: int| 0 <= i < c.symbols.len() ==> no_newline(#[trigger] c.symbols[i])
}

proof fn lemma_number_effect(c: GenCtx, n: u64)
    ensures
        value_stack_effect(expr_text(c, IExpr::Number(n))) == 1,
        whole_lines(expr_text(c, IExpr::Number(n))),
{
    reveal_strlit("t0");
    reveal_strlit("li t0,");
    lemma_push_text("t0"@);
    lemma_decimal_digits(n as nat);
    lemma_quiet_parts("li t0,"@, decimal(n as nat));
    lemma_cat("li t0,"@ + decimal(n as nat) + nl(), push_text("t0"@));
}

proof fn lemma_local_effect(c: GenCtx, l: nat)
    ensures
        value_stack_effect(expr_text(c, IExpr::Local(l))) == 1,
        whole_lines(expr_text(c, IExpr::Local(l))),
{
    reveal_strlit("t0");
    reveal_strlit("ld t0,-");
    reveal_strlit("(s0)");
    lemma_push_text("t0"@);
    lemma_decimal_digits(local_offset(l));
    let line = "ld t0,-"@ + decimal(local_offset(l)) + "(s0)"@;
    lemma_no_newline3("ld t0,-"@, decimal(local_offset(l)), "(s0)"@);
    lemma_quiet_line(line);
    lemma_cat(line + nl(), push_text("t0"@));
}

proof fn lemma_addr_effect(c: GenCtx, l: nat)
    ensures
        value_stack_effect(expr_text(c, IExpr::Addr(l))) == 1,
        whole_lines(expr_text(c, IExpr::Addr(l))),
{
    reveal_strlit("t0");
    reveal_strlit("addi t0,s0,-");
    lemma_push_text("t0"@);
    lemma_decimal_digits(local_offset(l));
    lemma_quiet_parts("addi t0,s0,-"@, decimal(local_offset(l)));
    lemma_cat("addi t0,s0,-"@ + decimal(local_offset(l)) + nl(), push_text("t0"@));
}

proof fn lemma_assign_effect(c: GenCtx, target: nat, value: IExpr)
    requires
        value_stack_effect(expr_text(c, value)) == 1,
        whole_lines(expr_text(c, value)),
    ensures
        value_stack_effect(expr_text(c, IExpr::Assign { target, value: Box::new(value) })) == 1,
        whole_lines(expr_text(c, IExpr::Assign { target, value: Box::new(value) })),
{
    reveal_strlit("ld t0,0(sp)");
    reveal_strlit("sd t0,-");
    reveal_strlit("(s0)");
    lemma_decimal_digits(local_offset(target));
    lemma_quiet_line("ld t0,0(sp)"@);
    let store = "sd t0,-"@ + decimal(local_offset(target)) + "(s0)"@;
    lemma_no_newline3("sd t0,-"@, decimal(local_offset(target)), "(s0)"@);
    lemma_quiet_line(store);
    let v = expr_text(c, value);
    lemma_cat(v, "ld t0,0(sp)"@ + nl());
    lemma_cat(v + ("ld t0,0(sp)"@ + nl()), store + nl());
    assert(expr_text(c, IExpr::Assign { target, value: Box::new(value) }) =~= v + ("ld t0,0(sp)"@ + nl()) + (store + nl()));
}

proof fn lemma_binary_effect(c: GenCtx, op: ir::BinaryOp, lhs: IExpr, rhs: IExpr)
    requires
        value_stack_effect(expr_text(c, lhs)) == 1,
        whole_lines(expr_text(c, lhs)),
        value_stack_effect(expr_text(c, rhs)) == 1,
        whole_lines(expr_text(c, rhs)),
    ensures
        value_stack_effect(expr_text(c, IExpr::Binary { op, lhs: Box::new(lhs), rhs: Box::new(rhs) })) == 1,
        whole_lines(expr_text(c, IExpr::Binary { op, lhs: Box::new(lhs), rhs: Box::new(rhs) })),
{
    reveal_strlit("t1");
    reveal_strlit("ld t0,0(sp)");
    reveal_strlit("sd t0,0(sp)");
    lemma_pop_text("t1"@);
    lemma_quiet_line("ld t0,0(sp)"@);
    lemma_op_text(op);
    lemma_quiet_line("sd t0,0(sp)"@);
    let a = expr_text(c, lhs);
    let b = expr_text(c, rhs);
    let x1 = a + b;
    let x2 = x1 + pop_text("t1"@);
    let x3 = x2 + ("ld t0,0(sp)"@ + nl());
    let x4 = x3 + op_text(op);
    let x5 = x4 + ("sd t0,0(sp)"@ + nl());
    lemma_cat(a, b);
    lemma_cat(x1, pop_text("t1"@));
    lemma_cat(x2, "ld t0,0(sp)"@ + nl());
    lemma_cat(x3, op_text(op));
    lemma_cat(x4, "sd t0,0(sp)"@ + nl());
    assert(expr_text(c, IExpr::Binary { op, lhs: Box::new(lhs), rhs: Box::new(rhs) }) =~= x5);
}

proof fn lemma_call_effect(c: GenCtx, function: nat, args: Seq<IExpr>)
    requires
        value_stack_effect(args_text(c, args)) == args.len(),
        whole_lines(args_text(c, args)),
        no_newline(c.symbols[function as int]),
    ensures
        value_stack_effect(expr_text(c, IExpr::Call { function, args })) == 1,
        whole_lines(expr_text(c, IExpr::Call { function, args })),
{
    reveal_strlit("a0");
    reveal_strlit("call ");
    lemma_pop_args_text(args.len());
    let sym = c.symbols[function as int];
    lemma_no_newline_concat("call "@, sym);
    lemma_quiet_line("call "@ + sym);
    lemma_push_text("a0"@);
    let at = args_text(c, args);
    let x1 = at + pop_args_text(args.len());
    let x2 = x1 + ("call "@ + sym + nl());
    lemma_cat(at, pop_args_text(args.len()));
    lemma_cat(x1, "call "@ + sym + nl());
    lemma_cat(x2, push_text("a0"@));
    assert(expr_text(c, IExpr::Call { function, args }) =~= x2 + push_text("a0"@));
}

proof fn lemma_deref_effect(c: GenCtx, operand: IExpr)
    requires
        value_stack_effect(expr_text(c, operand)) == 1,
        whole_lines(expr_text(c, operand)),
    ensures
        value_stack_effect(expr_text(c, IExpr::Deref(Box::new(operand)))) == 1,
        whole_lines(expr_text(c, IExpr::Deref(Box::new(operand)))),
{
    reveal_strlit("ld t0,0(sp)");
    reveal_strlit("ld t0,0(t0)");
    reveal_strlit("sd t0,0(sp)");
    lemma_quiet_line("ld t0,0(sp)"@);
    lemma_quiet_line("ld t0,0(t0)"@);
    lemma_quiet_line("sd t0,0(sp)"@);
    let a = expr_text(c, operand);
    let x1 = a + ("ld t0,0(sp)"@ + nl());
    let x2 = x1 + ("ld t0,0(t0)"@ + nl());
    lemma_cat(a, "ld t0,0(sp)"@ + nl());
    lemma_cat(x1, "ld t0,0(t0)"@ + nl());
    lemma_cat(x2, "sd t0,0(sp)"@ + nl());
    assert(expr_text(c, IExpr::Deref(Box::new(operand))) =~= x2 + ("sd t0,0(sp)"@ + nl()));
}

/// The code of an expression pushes exactly one value on the value stack
/// (and, as `expr_text` takes no label number, creates no label).
pub proof fn expr_pushes_one_value(c: GenCtx, e: IExpr)
    requires
        ir::iexpr_wf(e, c.symbols.len(), ir::local_id_bound()),
        symbols_single_line(c),
    ensures
        value_stack_effect(expr_text(c, e)) == 1,
        whole_lines(expr_text(c, e)),
    decreases e, 1int,
{
    match e {
        IExpr::Number(n) => lemma_number_effect(c, n),
        IExpr::Local(l) => lemma_local_effect(c, l),
        IExpr::Assign { target, value } => {
            expr_pushes_one_value(c, *value);
            lemma_assign_effect(c, target, *value);
        },
        IExpr::Binary { op, lhs, rhs } => {
            expr_pushes_one_value(c, *lhs);
            expr_pushes_one_value(c, *rhs);
            lemma_binary_effect(c, op, *lhs, *rhs);
        },
        IExpr::Call { function, args } => {
            lemma_args_push(c, args);
            lemma_call_effect(c, function, args);
        },
        IExpr::Addr(l) => lemma_addr_effect(c, l),
        IExpr::Deref(operand) => {
            expr_pushes_one_value(c, *operand);
            lemma_deref_effect(c, *operand);
        },
    }
}

/// The code of call arguments pushes one value for each argument.
proof fn lemma_args_push(c: GenCtx, args: Seq<IExpr>)
    requires
        ir::iexprs_wf(args, c.symbols.len(), ir::local_id_bound()),
        symbols_single_line(c),
    ensures
        value_stack_effect(args_text(c, args)) == args.len(),
        whole_lines(args_text(c, args)),
    decreases args, 0int,
{
    if args.len() > 0 {
        let prefix = args.subrange(0, args.len() - 1);
        lemma_args_push(c, prefix);
        expr_pushes_one_value(c, args[args.len() - 1]);
        lemma_cat(args_text(c, prefix), expr_text(c, args[args.len() - 1]));
    }
}

proof fn lemma_suffix(c: GenCtx, label: nat)
    ensures
        no_newline(label_suffix(c, label)),
        label_suffix(c, label).len() >= 3,
{
    reveal_strlit("_");
    lemma_decimal_digits(c.fid);
    lemma_decimal_digits(label);
    lemma_no_newline3(decimal(c.fid), "_"@, decimal(label));
}

/// A jump line neither pushes nor pops.
proof fn lemma_jump_line(c: GenCtx, ins: Seq<char>, label: nat)
    requires
        no_newline(ins),
        ins.len() >= 1,
        ins[0] != 'a',
    ensures
        value_stack_effect(jump_line(c, ins, label)) == 0,
        whole_lines(jump_line(c, ins, label)),
{
    lemma_suffix(c, label);
    lemma_no_newline_concat(ins, label_suffix(c, label));
    lemma_quiet_line(ins + label_suffix(c, label));
}

/// A label line neither pushes nor pops.
proof fn lemma_label_line(c: GenCtx, name: Seq<char>, label: nat)
    requires
        no_newline(name),
        name.len() >= 1,
        name[0] == '.',
    ensures
        value_stack_effect(label_line(c, name, label)) == 0,
        whole_lines(label_line(c, name, label)),
{
    reveal_strlit(":");
    lemma_suffix(c, label);
    lemma_no_newline3(name, label_suffix(c, label), ":"@);
    lemma_quiet_line(name + label_suffix(c, label) + ":"@);
}

proof fn lemma_branch_end(c: GenCtx, label: nat)
    ensures
        value_stack_effect(branch_end_text(c, label)) == -1,
        whole_lines(branch_end_text(c, label)),
{
    reveal_strlit("t0");
    reveal_strlit("beqz t0,.Lend");
    lemma_pop_text("t0"@);
    lemma_jump_line(c, "beqz t0,.Lend"@, label);
    lemma_cat(pop_text("t0"@), jump_line(c, "beqz t0,.Lend"@, label));
}

proof fn lemma_opt_discard(c: GenCtx, e: Option<IExpr>)
    requires
        ir::opt_iexpr_wf(e, c.symbols.len(), ir::local_id_bound()),
        symbols_single_line(c),
    ensures
        value_stack_effect(opt_discard_text(c, e)) == 0,
        whole_lines(opt_discard_text(c, e)),
{
    if let Some(x) = e {
        expr_pushes_one_value(c, x);
        lemma_discard_text();
        lemma_cat(expr_text(c, x), discard_text());
    } else {
        assert(value_stack_effect(Seq::<char>::empty()) == 0);
    }
}

proof fn lemma_return_effect(c: GenCtx, e: IExpr, label: nat)
    requires
        value_stack_effect(expr_text(c, e)) == 1,
        whole_lines(expr_text(c, e)),
    ensures
        value_stack_effect(stmt_text(c, label, IStmt::Return(e)).0) == 0,
        whole_lines(stmt_text(c, label, IStmt::Return(e)).0),
{
    reveal_strlit("a0");
    reveal_strlit("j .Lreturn");
    lemma_pop_text("a0"@);
    lemma_decimal_digits(c.fid);
    lemma_quiet_parts("j .Lreturn"@, decimal(c.fid));
    let x1 = expr_text(c, e) + pop_text("a0"@);
    lemma_cat(expr_text(c, e), pop_text("a0"@));
    lemma_cat(x1, "j .Lreturn"@ + decimal(c.fid) + nl());
    assert(stmt_text(c, label, IStmt::Return(e)).0 =~= x1 + ("j .Lreturn"@ + decimal(c.fid) + nl()));
}

proof fn lemma_if_effect(c: GenCtx, label: nat, condition: IExpr, then_branch: IStmt, else_branch: Option<Box<IStmt>>)
    requires
        value_stack_effect(expr_text(c, condition)) == 1,
        whole_lines(expr_text(c, condition)),
        value_stack_effect(stmt_text(c, label + 1, then_branch).0) == 0,
        whole_lines(stmt_text(c, label + 1, then_branch).0),
        else_branch matches Some(e) ==> value_stack_effect(stmt_text(c, stmt_text(c, label + 1, then_branch).1, *e).0) == 0
            && whole_lines(stmt_text(c, stmt_text(c, label + 1, then_branch).1, *e).0),
    ensures
        value_stack_effect(stmt_text(c, label, IStmt::If { condition, then_branch: Box::new(then_branch), else_branch }).0) == 0,
        whole_lines(stmt_text(c, label, IStmt::If { condition, then_branch: Box::new(then_branch), else_branch }).0),
{
    reveal_strlit("t0");
    reveal_strlit("beqz t0,.Lelse");
    reveal_strlit("j .Lend");
    reveal_strlit(".Lelse");
    reveal_strlit(".Lend");
    let s = IStmt::If { condition, then_branch: Box::new(then_branch), else_branch };
    let ce = expr_text(c, condition);
    let tt = stmt_text(c, label + 1, then_branch).0;
    let l1 = stmt_text(c, label + 1, then_branch).1;
    lemma_label_line(c, ".Lend"@, label);
    match else_branch {
        Some(e) => {
            let et = stmt_text(c, l1, *e).0;
            lemma_pop_text("t0"@);
            lemma_jump_line(c, "beqz t0,.Lelse"@, label);
            lemma_jump_line(c, "j .Lend"@, label);
            lemma_label_line(c, ".Lelse"@, label);
            let x1 = ce + pop_text("t0"@);
            let x2 = x1 + jump_line(c, "beqz t0,.Lelse"@, label);
            let x3 = x2 + tt;
            let x4 = x3 + jump_line(c, "j .Lend"@, label);
            let x5 = x4 + label_line(c, ".Lelse"@, label);
            let x6 = x5 + et;
            lemma_cat(ce, pop_text("t0"@));
            lemma_cat(x1, jump_line(c, "beqz t0,.Lelse"@, label));
            lemma_cat(x2, tt);
            lemma_cat(x3, jump_line(c, "j .Lend"@, label));
            lemma_cat(x4, label_line(c, ".Lelse"@, label));
            lemma_cat(x5, et);
            lemma_cat(x6, label_line(c, ".Lend"@, label));
            assert(stmt_text(c, label, s).0 == x6 + label_line(c, ".Lend"@, label));
        },
        None => {
            lemma_branch_end(c, label);
            let x1 = ce + branch_end_text(c, label);
            let x2 = x1 + tt;
            lemma_cat(ce, branch_end_text(c, label));
            lemma_cat(x1, tt);
            lemma_cat(x2, label_line(c, ".Lend"@, label));
            assert(stmt_text(c, label, s).0 == x2 + label_line(c, ".Lend"@, label));
        },
    }
}

proof fn lemma_while_effect(c: GenCtx, label: nat, condition: IExpr, body: IStmt)
    requires
        value_stack_effect(expr_text(c, condition)) == 1,
        whole_lines(expr_text(c, condition)),
        value_stack_effect(stmt_text(c, label + 1, body).0) == 0,
        whole_lines(stmt_text(c, label + 1, body).0),
    ensures
        value_stack_effect(stmt_text(c, label, IStmt::While { condition, body: Box::new(body) }).0) == 0,
        whole_lines(stmt_text(c, label, IStmt::While { condition, body: Box::new(body) }).0),
{
    reveal_strlit(".Lbegin");
    reveal_strlit(".Lend");
    reveal_strlit("j .Lbegin");
    let ce = expr_text(c, condition);
    let bt = stmt_text(c, label + 1, body).0;
    lemma_label_line(c, ".Lbegin"@, label);
    lemma_label_line(c, ".Lend"@, label);
    lemma_jump_line(c, "j .Lbegin"@, label);
    lemma_branch_end(c, label);
    let x0 = label_line(c, ".Lbegin"@, label);
    let x1 = x0 + ce;
    let x2 = x1 + branch_end_text(c, label);
    let x3 = x2 + bt;
    let x4 = x3 + jump_line(c, "j .Lbegin"@, label);
    lemma_cat(x0, ce);
    lemma_cat(x1, branch_end_text(c, label));
    lemma_cat(x2, bt);
    lemma_cat(x3, jump_line(c, "j .Lbegin"@, label));
    lemma_cat(x4, label_line(c, ".Lend"@, label));
    assert(stmt_text(c, label, IStmt::While { condition, body: Box::new(body) }).0 == x4 + label_line(c, ".Lend"@, label));
}

proof fn lemma_for_effect(
    c: GenCtx,
    label: nat,
    init: Option<IExpr>,
    condition: Option<IExpr>,
    update: Option<IExpr>,
    body: IStmt,
)
    requires
        ir::opt_iexpr_wf(init, c.symbols.len(), ir::local_id_bound()),
        ir::opt_iexpr_wf(condition, c.symbols.len(), ir::local_id_bound()),
        ir::opt_iexpr_wf(update, c.symbols.len(), ir::local_id_bound()),
        symbols_single_line(c),
        value_stack_effect(stmt_text(c, label + 1, body).0) == 0,
        whole_lines(stmt_text(c, label + 1, body).0),
    ensures
        value_stack_effect(stmt_text(c, label, IStmt::For { init, condition, update, body: Box::new(body) }).0) == 0,
        whole_lines(stmt_text(c, label, IStmt::For { init, condition, update, body: Box::new(body) }).0),
{
    reveal_strlit(".Lbegin");
    reveal_strlit(".Lend");
    reveal_strlit("j .Lbegin");
    let bt = stmt_text(c, label + 1, body).0;
    lemma_opt_discard(c, init);
    lemma_opt_discard(c, update);
    lemma_label_line(c, ".Lbegin"@, label);
    lemma_label_line(c, ".Lend"@, label);
    lemma_jump_line(c, "j .Lbegin"@, label);
    let ct = match condition {
        Some(x) => expr_text(c, x) + branch_end_text(c, label),
        None => Seq::<char>::empty(),
    };
    if let Some(x) = condition {
        expr_pushes_one_value(c, x);
        lemma_branch_end(c, label);
        lemma_cat(expr_text(c, x), branch_end_text(c, label));
    } else {
        assert(value_stack_effect(Seq::<char>::empty()) == 0);
    }
    let x0 = opt_discard_text(c, init);
    let x1 = x0 + label_line(c, ".Lbegin"@, label);
    let x2 = x1 + ct;
    let x3 = x2 + bt;
    let x4 = x3 + opt_discard_text(c, update);
    let x5 = x4 + jump_line(c, "j .Lbegin"@, label);
    lemma_cat(x0, label_line(c, ".Lbegin"@, label));
    lemma_cat(x1, ct);
    lemma_cat(x2, bt);
    lemma_cat(x3, opt_discard_text(c, update));
    lemma_cat(x4, jump_line(c, "j .Lbegin"@, label));
    lemma_cat(x5, label_line(c, ".Lend"@, label));
    assert(stmt_text(c, label, IStmt::For { init, condition, update, body: Box::new(body) }).0
        == x5 + label_line(c, ".Lend"@, label));
}

/// The code of a statement leaves the value stack as it found it: it pops
/// every value it pushes.
pub proof fn stmt_keeps_value_stack(c: GenCtx, label: nat, s: IStmt)
    requires
        ir::istmt_wf(s, c.symbols.len(), ir::local_id_bound()),
        symbols_single_line(c),
    ensures
        value_stack_effect(stmt_text(c, label, s).0) == 0,
        whole_lines(stmt_text(c, label, s).0),
    decreases s, 0int,
{
    match s {
        IStmt::Expr(e) => {
            expr_pushes_one_value(c, e);
            lemma_discard_text();
            lemma_cat(expr_text(c, e), discard_text());
        },
        IStmt::Return(e) => {
            expr_pushes_one_value(c, e);
            lemma_return_effect(c, e, label);
        },
        IStmt::Block(b) => block_keeps_value_stack(c, label, b),
        IStmt::If { condition, then_branch, else_branch } => {
            expr_pushes_one_value(c, condition);
            stmt_keeps_value_stack(c, label + 1, *then_branch);
            if let Some(e) = else_branch {
                stmt_keeps_value_stack(c, stmt_text(c, label + 1, *then_branch).1, *e);
            }
            lemma_if_effect(c, label, condition, *then_branch, else_branch);
            assert(s == IStmt::If { condition, then_branch: Box::new(*then_branch), else_branch });
        },
        IStmt::While { condition, body } => {
            expr_pushes_one_value(c, condition);
            stmt_keeps_value_stack(c, label + 1, *body);
            lemma_while_effect(c, label, condition, *body);
            assert(s == IStmt::While { condition, body: Box::new(*body) });
        },
        IStmt::For { init, condition, update, body } => {
            stmt_keeps_value_stack(c, label + 1, *body);
            lemma_for_effect(c, label, init, condition, update, *body);
            assert(s == IStmt::For { init, condition, update, body: Box::new(*body) });
        },
        IStmt::Decl { .. } => {
            assert(value_stack_effect(Seq::<char>::empty()) == 0);
        },
    }
}

/// The code of a sequence of statements leaves the value stack as it found it.
pub proof fn block_keeps_value_stack(c: GenCtx, label: nat, b: Seq<IStmt>)
    requires
        ir::istmts_wf(b, c.symbols.len(), ir::local_id_bound()),
        symbols_single_line(c),
    ensures
        value_stack_effect(block_text(c, label, b).0) == 0,
        whole_lines(block_text(c, label, b).0),
    decreases b, 1int,
{
    if b.len() == 0 {
        assert(value_stack_effect(Seq::<char>::empty()) == 0);
    } else {
        let prefix = b.subrange(0, b.len() - 1);
        block_keeps_value_stack(c, label, prefix);
        let l1 = block_text(c, label, prefix).1;
        stmt_keeps_value_stack(c, l1, b[b.len() - 1]);
        lemma_cat(block_text(c, label, prefix).0, stmt_text(c, l1, b[b.len() - 1]).0);
    }
}

} // verus!
