use rvcc::ast::{BinaryOp, Expr, Program, Stmt};
use rvcc::lexer::lex;
use rvcc::parser::parse;

fn parse_source(source: &str) -> Result<Program, String> {
    parse(&lex(source).unwrap())
}

#[test]
fn parses_functions_parameters_and_calls() {
    let program =
        parse_source("add(a, b) { return a + b; } main() { return 1 + add(2, add(3, 4)); }")
            .unwrap();

    assert_eq!(program.functions.len(), 2);
    assert_eq!(program.functions[0].name, "add");
    assert_eq!(program.functions[0].params, ["a", "b"]);
    assert!(matches!(
        program.functions[1].body.statements[0],
        Stmt::Return(Expr::Binary { .. })
    ));
}

#[test]
fn parses_control_flow_and_blocks() {
    let program = parse_source(
        "main() { if (1) { a = 1; } else a = 2; while (a) a = a - 1; for (i = 0; i < 3; i = i + 1) {} }",
    )
    .unwrap();

    assert_eq!(program.functions[0].body.statements.len(), 3);
    assert!(matches!(
        program.functions[0].body.statements[2],
        Stmt::For { .. }
    ));
}

#[test]
fn assignment_is_right_associative() {
    let program = parse_source("main() { a = b = 1; }").unwrap();
    let Stmt::Expr(Expr::Assign { name, value }) = &program.functions[0].body.statements[0]
    else {
        panic!("expected assignment");
    };
    assert_eq!(name, "a");
    assert!(matches!(value.as_ref(), Expr::Assign { name, .. } if name == "b"));
}

#[test]
fn rejects_invalid_assignment_target_and_trailing_commas() {
    assert!(parse_source("main() { (1 + 2) = 3; }").is_err());
    assert!(parse_source("main(a,) { return a; }").is_err());
    assert!(parse_source("main() { return f(1,); }").is_err());
}

#[test]
fn rejects_unclosed_block() {
    assert_eq!(
        parse_source("main() { return 1;"),
        Err(String::from("Unexpected EOF. '}' is expected."))
    );
}

#[test]
fn typed_definitions_and_declarations_parse() {
    let program = parse_source("int add(int x, int y) { int z; z = x + y; return z; }").unwrap();
    assert_eq!(program.functions[0].name, "add");
    assert_eq!(program.functions[0].params, ["x", "y"]);
    assert_eq!(
        program.functions[0].body.statements[0],
        Stmt::Decl { var_type: String::from("int"), var_name: String::from("z") }
    );
}

#[test]
fn operators_are_left_associative_with_precedence() {
    let program = parse_source("main() { return 1 - 2 - 3 * 4; }").unwrap();
    let expected = Expr::Binary {
        op: BinaryOp::Sub,
        lhs: Box::new(Expr::Binary {
            op: BinaryOp::Sub,
            lhs: Box::new(Expr::Number(1)),
            rhs: Box::new(Expr::Number(2)),
        }),
        rhs: Box::new(Expr::Binary {
            op: BinaryOp::Mul,
            lhs: Box::new(Expr::Number(3)),
            rhs: Box::new(Expr::Number(4)),
        }),
    };
    assert_eq!(program.functions[0].body.statements[0], Stmt::Return(expected));
}

#[test]
fn greater_than_swaps_operands() {
    let program = parse_source("main() { return a > b; }").unwrap();
    assert_eq!(
        program.functions[0].body.statements[0],
        Stmt::Return(Expr::Binary {
            op: BinaryOp::Less,
            lhs: Box::new(Expr::Variable(String::from("b"))),
            rhs: Box::new(Expr::Variable(String::from("a"))),
        })
    );
}

#[test]
fn unary_operators() {
    let program = parse_source("main() { return -a + +b + *&c; }").unwrap();
    let expected = Expr::Binary {
        op: BinaryOp::Add,
        lhs: Box::new(Expr::Binary {
            op: BinaryOp::Add,
            lhs: Box::new(Expr::Binary {
                op: BinaryOp::Sub,
                lhs: Box::new(Expr::Number(0)),
                rhs: Box::new(Expr::Variable(String::from("a"))),
            }),
            rhs: Box::new(Expr::Variable(String::from("b"))),
        }),
        rhs: Box::new(Expr::Deref(Box::new(Expr::Addr(Box::new(Expr::Variable(String::from("c"))))))),
    };
    assert_eq!(program.functions[0].body.statements[0], Stmt::Return(expected));
}

#[test]
fn parser_error_messages() {
    assert_eq!(
        parse_source("main() { return 1 }"),
        Err(String::from("';' is required at the end of statements."))
    );
    assert_eq!(
        parse_source("main() { (1 + 2) = 3; }"),
        Err(String::from("lhs of assign expression must be identifier."))
    );
    assert_eq!(
        parse_source("main() { return (1; }"),
        Err(String::from("Unexpected character. ')' is expected."))
    );
    assert_eq!(
        parse_source("main() { return ; }"),
        Err(String::from("Unexpected token: Semi"))
    );
    assert_eq!(
        parse_source("main() { return f(1,); }"),
        Err(String::from("Unexpected token: ParR"))
    );
    assert_eq!(
        parse_source("main(a,) { return a; }"),
        Err(String::from("unexpected token: Some(ParR)"))
    );
    assert_eq!(parse_source("main() { return"), Err(String::from("Unexpected EOF")));
    assert_eq!(
        parse_source("main() { return f(1 2); }"),
        Err(String::from("unexpected token: Some(Num(2))"))
    );
}

#[test]
fn empty_token_list_is_an_empty_program() {
    assert_eq!(parse(&[]), Ok(Program { functions: vec![] }));
}
