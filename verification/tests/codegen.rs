use rvcc::codegen::generate;
use rvcc::lexer::lex;
use rvcc::parser::parse;
use rvcc::sema::analyze;

fn generate_source(source: &str) -> String {
    let tokens = lex(source).unwrap();
    let ast = parse(&tokens).unwrap();
    let program = analyze(ast).unwrap();
    generate(&program)
}

#[test]
fn generates_parameter_slots_and_call_registers() {
    let assembly = generate_source(
        "int add(int a,int b) { return a+b; } int main() { return add(20,22); }",
    );

    assert!(assembly.contains("add:\naddi sp,sp,-32\n"));
    assert!(assembly.contains("sd a0,-24(s0)\nsd a1,-32(s0)\n"));
    assert!(assembly.contains("ld a1,0(sp)\naddi sp,sp,16\nld a0,0(sp)"));
    assert!(assembly.contains("call add\naddi sp,sp,-16\nsd a0,0(sp)"));
}

#[test]
fn labels_are_unique_between_functions() {
    let assembly = generate_source(
        "int f(int a) { if (a) return 1; return 0; } int main() { while (0) {} return f(1); }",
    );

    assert!(assembly.contains(".Lend0_0:"));
    assert!(assembly.contains(".Lreturn0:"));
    assert!(assembly.contains(".Lbegin1_0:"));
    assert!(assembly.contains(".Lreturn1:"));
    assert!(assembly.contains("j .Lreturn0"));
    assert!(assembly.contains("j .Lreturn1"));
}

#[test]
fn fallthrough_returns_zero() {
    let assembly = generate_source("int main() {}");
    assert!(assembly.contains("li a0,0\n.Lreturn0:\n"));
}

#[test]
fn nested_calls_preserve_earlier_arguments() {
    let assembly = generate_source(
        "int id(int x) { return x; } int add(int a,int b) { return a+b; } int main() { return add(id(1), id(2)); }",
    );
    assert_eq!(assembly.matches("call id\n").count(), 2);
    assert!(assembly.contains("call add\n"));
}

#[test]
fn empty_main_in_full() {
    assert_eq!(
        generate_source("int main() {}"),
        ".globl main\nmain:\naddi sp,sp,-16\nsd ra,8(sp)\nsd s0,0(sp)\naddi s0,sp,16\n\
         li a0,0\n.Lreturn0:\nld ra,8(sp)\nld s0,0(sp)\naddi sp,sp,16\njr ra\n"
    );
}

#[test]
fn return_of_a_number_in_full() {
    assert_eq!(
        generate_source("main() { return 42; }"),
        ".globl main\nmain:\naddi sp,sp,-16\nsd ra,8(sp)\nsd s0,0(sp)\naddi s0,sp,16\n\
         li t0,42\naddi sp,sp,-16\nsd t0,0(sp)\nld a0,0(sp)\naddi sp,sp,16\nj .Lreturn0\n\
         li a0,0\n.Lreturn0:\nld ra,8(sp)\nld s0,0(sp)\naddi sp,sp,16\njr ra\n"
    );
}

#[test]
fn frame_size_is_rounded_to_sixteen_bytes() {
    // Three locals: 16 + 24 = 40 bytes, rounded up to 48.
    let assembly = generate_source("main() { int a; int b; int c; c = 1; }");
    assert!(assembly.contains("main:\naddi sp,sp,-48\nsd ra,40(sp)\nsd s0,32(sp)\naddi s0,sp,48\n"));
    assert!(assembly.contains("sd t0,-40(s0)\n"));
}

#[test]
fn comparisons_and_arithmetic_instructions() {
    let assembly = generate_source(
        "main() { int a; a = 1; a = a + a; a = a - a; a = a * a; a = a / a; a = a < a; a = a <= a; a = a == a; a = a != a; }",
    );
    assert!(assembly.contains("add t0,t0,t1\n"));
    assert!(assembly.contains("sub t0,t0,t1\nsd t0,0(sp)\n"));
    assert!(assembly.contains("mul t0,t0,t1\n"));
    assert!(assembly.contains("div t0,t0,t1\n"));
    assert!(assembly.contains("slt t0,t0,t1\n"));
    assert!(assembly.contains("slt t0,t1,t0\nxori t0,t0,1\n"));
    assert!(assembly.contains("sub t0,t0,t1\nseqz t0,t0\n"));
    assert!(assembly.contains("sub t0,t0,t1\nsnez t0,t0\n"));
}

#[test]
fn if_else_while_and_for_labels() {
    let assembly = generate_source(
        "main() { int i; if (1) i = 1; else i = 2; while (i) i = i - 1; for (i = 0; i < 3; i = i + 1) {} for (;;) return 0; }",
    );
    assert!(assembly.contains("beqz t0,.Lelse0_0\n"));
    assert!(assembly.contains("j .Lend0_0\n.Lelse0_0:\n"));
    assert!(assembly.contains(".Lbegin0_1:\n"));
    assert!(assembly.contains("j .Lbegin0_1\n.Lend0_1:\n"));
    assert!(assembly.contains(".Lbegin0_2:\n"));
    assert!(assembly.contains("beqz t0,.Lend0_2\n"));
    assert!(assembly.contains("j .Lbegin0_3\n.Lend0_3:\n"));
    assert!(!assembly.contains(".Lbegin0_4"));
}

#[test]
fn addresses_and_loads() {
    let assembly = generate_source("main() { int a; a = 5; return *&a; }");
    assert!(assembly.contains("addi t0,s0,-24\naddi sp,sp,-16\nsd t0,0(sp)\nld t0,0(sp)\nld t0,0(t0)\nsd t0,0(sp)\n"));
}

#[test]
fn nested_statements_get_increasing_labels() {
    let assembly = generate_source(
        "main() { int a; while (a) { if (a) a = 0; else { while (a) a = 1; } } for (;a;) a = 2; }",
    );
    assert!(assembly.contains(".Lbegin0_0:\n"));
    assert!(assembly.contains("beqz t0,.Lelse0_1\n"));
    assert!(assembly.contains(".Lbegin0_2:\n"));
    assert!(assembly.contains(".Lend0_2:\n.Lend0_1:\nj .Lbegin0_0\n.Lend0_0:\n"));
    assert!(assembly.contains(".Lbegin0_3:\n"));
    assert!(!assembly.contains("_4"));
}
