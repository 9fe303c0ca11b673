use rvcc::ir;
use rvcc::lexer::lex;
use rvcc::parser::parse;
use rvcc::sema::{analyze, within_machine_limits, SemanticError};

fn analyze_source(source: &str) -> Result<ir::Program, SemanticError> {
    let tokens = lex(source).unwrap();
    let program = parse(&tokens).unwrap();
    assert!(within_machine_limits(&program));
    analyze(program)
}

fn error(source: &str) -> String {
    analyze_source(source).unwrap_err().to_string()
}

#[test]
fn var_declare() {
    let program = analyze_source("main(){int a; a=10; {int a; a = 20;} return a;}").unwrap();
    assert_eq!(program.functions[0].local_count, 2);
}

#[test]
fn reject_var_double_declare() {
    let src = "main(){int a; a=10; {int a; a = 20;} int a; return a;}";
    assert!(error(src).contains("is already declared"));
}

#[test]
fn reject_undeclared() {
    let src = "main(){a=10; {int a; a = 20;} int a; return a;}";
    assert!(error(src).contains("is not declared"));
}

#[test]
fn reject_out_of_scope() {
    let src = "main(){int a; a=10; {int b; a = 20;} b = 30; return a;}";
    assert!(error(src).contains("is not declared"));
}

#[test]
fn resolves_forward_calls_recursion_and_eight_arguments() {
    let program = analyze_source(
        "main() { return sum8(1,2,3,4,5,6,7,8); }
         sum8(a,b,c,d,e,f,g,h) { if (a == 0) return 0; return a+b+c+d+e+f+g+h; }",
    )
    .unwrap();

    assert_eq!(program.functions.len(), 2);
    assert_eq!(program.functions[1].params.len(), 8);
    assert_eq!(program.functions[1].local_count, 8);
}

#[test]
fn rejects_invalid_function_definitions_and_calls() {
    assert!(error("main() {} main() {}").contains("duplicate function"));
    assert!(error("main() {} f(a,a) {}").contains("duplicate parameter"));
    assert!(error("other() {}").contains("define main"));
    assert!(error("main(a) {}").contains("zero parameters"));
    assert!(error("main() { f(); } f(a) {}").contains("1 are required"));
    assert!(error("main() { missing(); }").contains("undefined function"));
    assert!(error("main() { f(1,2,3,4,5,6,7,8,9); } f() {}").contains("at most 8"));
}

#[test]
fn requires_declaration_before_use() {
    assert!(error("main() { return a; }").contains("undefined variable"));
    assert!(error("main() { a = a + 1; }").contains("undefined variable"));
    analyze_source("main() { int a; a = 1; return a; }").unwrap();
}

#[test]
fn resolves_outer_assignments_and_separates_sibling_locals() {
    let program = analyze_source(
        "main() { int outer; outer = 1; { int sibling; outer = 2; sibling = 3; } { int sibling; sibling = 4; } return outer; }",
    )
    .unwrap();
    let function = &program.functions[0];
    assert_eq!(function.local_count, 3);
    assert!(
        error("main() { { int local; local = 1; } return local; }")
            .contains("undefined variable")
    );
}

#[test]
fn for_has_its_own_scope() {
    analyze_source("main() { for (; 0;) int i; return 0; }").unwrap();
    assert!(error("main() { for (; 0;) int i; return i; }").contains("undefined variable"));
}

#[test]
fn semantic_error_messages_in_full() {
    assert_eq!(error("main() { return a; }"), "undefined variable: 'a'");
    assert_eq!(error("main() { a = 1; }"), "'a' is not declared in this scope.");
    assert_eq!(error("main() { int a; int a; }"), "'a' is already declared in this scope.");
    assert_eq!(error("main() { long a; }"), "invalid data type: 'long'");
    assert_eq!(error("main() { return &1; }"), "operand of '&' must be a variable");
    assert_eq!(error("main() { return &b; }"), "undefined variable: 'b'");
    assert_eq!(
        error("main() { f(1,2,3,4,5,6,7,8,9); }"),
        "call to 'f' has 9 arguments; at most 8 are supported"
    );
    assert_eq!(error("main() { g(); }"), "call to undefined function: 'g'");
    assert_eq!(
        error("main() { f(1,2); } f(a) {}"),
        "call to 'f' has 2 arguments but 1 are required"
    );
    assert_eq!(
        error("main() {} f(a,b,c,d,e,f,g,h,i) {}"),
        "function 'f' has 9 parameters; at most 8 are supported"
    );
    assert_eq!(error("main() {} main() {}"), "duplicate function definition: 'main'");
    assert_eq!(error("main() {} f(a,a) {}"), "duplicate parameter 'a' in function 'f'");
    assert_eq!(error(""), "program must define main()");
    assert_eq!(error("main(x) {}"), "main must have zero parameters");
}

#[test]
fn signature_errors_come_before_body_errors() {
    assert_eq!(error("f() { return x; } g(a,b,c,d,e,f,g,h,i) {}"), "function 'g' has 9 parameters; at most 8 are supported");
    assert_eq!(error("f() { return x; }"), "program must define main()");
    assert_eq!(error("main() { return x; } f() { return y; }"), "undefined variable: 'x'");
}

#[test]
fn locals_get_ids_in_declaration_order() {
    let program = analyze_source("f(p, q) { int a; { int b; b = p; } int c; c = a; return q; } main() { return f(1, 2); }").unwrap();
    let f = &program.functions[0];
    assert_eq!(f.id, ir::FunctionId(0));
    assert_eq!(f.params, vec![ir::LocalId(0), ir::LocalId(1)]);
    assert_eq!(f.local_count, 5);
    assert_eq!(
        f.body.statements[0],
        ir::Stmt::Decl { ctype: ir::CType::Int, target: ir::LocalId(2) }
    );
    assert_eq!(
        f.body.statements[3],
        ir::Stmt::Expr(ir::Expr::Assign {
            target: ir::LocalId(4),
            value: Box::new(ir::Expr::Local(ir::LocalId(2))),
        })
    );
    assert_eq!(program.functions[1].id, ir::FunctionId(1));
    assert_eq!(
        program.functions[1].body.statements[0],
        ir::Stmt::Return(ir::Expr::Call {
            function: ir::FunctionId(0),
            args: vec![ir::Expr::Number(1), ir::Expr::Number(2)],
        })
    );
}

#[test]
fn addresses_and_dereferences_resolve() {
    let program = analyze_source("main() { int a; return *&a; }").unwrap();
    assert_eq!(
        program.functions[0].body.statements[1],
        ir::Stmt::Return(ir::Expr::Deref(Box::new(ir::Expr::Addr(ir::LocalId(0)))))
    );
}

#[test]
fn small_programs_are_within_machine_limits() {
    let program = parse(&lex("main() { { { return 1; } } }").unwrap()).unwrap();
    assert!(within_machine_limits(&program));
}

#[test]
fn unary_plus_is_dropped_so_address_of_plus_variable_is_accepted() {
    let expected = ir::Stmt::Return(ir::Expr::Addr(ir::LocalId(0)));
    let program = analyze_source("main() { int a; return &+a; }").unwrap();
    assert_eq!(program.functions[0].body.statements[1], expected);
    let program = analyze_source("main() { int a; return &(+a); }").unwrap();
    assert_eq!(program.functions[0].body.statements[1], expected);
}

#[test]
fn parameters_may_be_shadowed_in_the_body() {
    let program = analyze_source("f(p) { int p; p = 1; return p; } main() { return f(0); }").unwrap();
    assert_eq!(program.functions[0].local_count, 2);
    assert_eq!(
        program.functions[0].body.statements[2],
        ir::Stmt::Return(ir::Expr::Local(ir::LocalId(1)))
    );
}
