use rvcc::ast::{BinaryOp, Expr, Function, Program, Stmt};
use rvcc::codegen::generate;
use rvcc::lexer::{lex, Token};
use rvcc::parser::parse;
use rvcc::sema::analyze;

fn spell(token: &Token) -> String {
    match token {
        Token::Num(n) => n.to_string(),
        Token::Id(x) => x.clone(),
        Token::Plus => String::from("+"),
        Token::Minus => String::from("-"),
        Token::Mult => String::from("*"),
        Token::Div => String::from("/"),
        Token::ParL => String::from("("),
        Token::ParR => String::from(")"),
        Token::Eq => String::from("=="),
        Token::Neq => String::from("!="),
        Token::Gt => String::from(">"),
        Token::Geq => String::from(">="),
        Token::Lt => String::from("<"),
        Token::Leq => String::from("<="),
        Token::Assign => String::from("="),
        Token::Semi => String::from(";"),
        Token::Return => String::from("return"),
        Token::Comma => String::from(","),
        Token::BraceL => String::from("{"),
        Token::BraceR => String::from("}"),
        Token::If => String::from("if"),
        Token::Else => String::from("else"),
        Token::While => String::from("while"),
        Token::For => String::from("for"),
        Token::Amp => String::from("&"),
    }
}

#[test]
fn lexing_distributes_over_space_joined_text() {
    let a = "x1=3<=y";
    let b = "return(a!=b)&c";
    let mut joined = lex(a).unwrap();
    joined.extend(lex(b).unwrap());
    assert_eq!(lex(&format!("{} {}", a, b)), Ok(joined));
    assert_eq!(lex(&format!(" {}\n", a)), lex(a));
    assert_eq!(lex(" 1 @"), Err(String::from("Invalid Character at 3")));
}

#[test]
fn spelled_tokens_lex_back() {
    let tokens = lex("int main(){int a; a=10>=2; if(a!=0)return &a*4/2-1; else for(;;) while(a<b) {} }").unwrap();
    let text: Vec<String> = tokens.iter().map(spell).collect();
    assert_eq!(lex(&text.join(" ")), Ok(tokens));
}

fn print_expr(e: &Expr, out: &mut Vec<Token>) {
    match e {
        Expr::Number(n) => out.push(Token::Num(*n)),
        Expr::Variable(x) => out.push(Token::Id(x.clone())),
        Expr::Assign { name, value } => {
            out.push(Token::ParL);
            out.push(Token::Id(name.clone()));
            out.push(Token::Assign);
            print_expr(value, out);
            out.push(Token::ParR);
        }
        Expr::Binary { op, lhs, rhs } => {
            out.push(Token::ParL);
            print_expr(lhs, out);
            out.push(match op {
                BinaryOp::Add => Token::Plus,
                BinaryOp::Sub => Token::Minus,
                BinaryOp::Mul => Token::Mult,
                BinaryOp::Div => Token::Div,
                BinaryOp::Less => Token::Lt,
                BinaryOp::LessEqual => Token::Leq,
                BinaryOp::Equal => Token::Eq,
                BinaryOp::NotEqual => Token::Neq,
            });
            print_expr(rhs, out);
            out.push(Token::ParR);
        }
        Expr::Call { name, args } => {
            out.push(Token::Id(name.clone()));
            out.push(Token::ParL);
            for (i, a) in args.iter().enumerate() {
                if i > 0 {
                    out.push(Token::Comma);
                }
                print_expr(a, out);
            }
            out.push(Token::ParR);
        }
        Expr::Addr(x) => {
            out.push(Token::Amp);
            print_expr(x, out);
        }
        Expr::Deref(x) => {
            out.push(Token::Mult);
            print_expr(x, out);
        }
    }
}

fn print_opt(e: &Option<Expr>, out: &mut Vec<Token>) {
    if let Some(x) = e {
        print_expr(x, out);
    }
}

fn print_stmt(s: &Stmt, out: &mut Vec<Token>) {
    match s {
        Stmt::Expr(e) => {
            print_expr(e, out);
            out.push(Token::Semi);
        }
        Stmt::Return(e) => {
            out.push(Token::Return);
            print_expr(e, out);
            out.push(Token::Semi);
        }
        Stmt::Block(b) => {
            out.push(Token::BraceL);
            for s in &b.statements {
                print_stmt(s, out);
            }
            out.push(Token::BraceR);
        }
        Stmt::If { condition, then_branch, else_branch } => {
            out.extend([Token::If, Token::ParL]);
            print_expr(condition, out);
            out.push(Token::ParR);
            print_stmt(then_branch, out);
            if let Some(e) = else_branch {
                out.push(Token::Else);
                print_stmt(e, out);
            }
        }
        Stmt::While { condition, body } => {
            out.extend([Token::While, Token::ParL]);
            print_expr(condition, out);
            out.push(Token::ParR);
            print_stmt(body, out);
        }
        Stmt::For { init, condition, update, body } => {
            out.extend([Token::For, Token::ParL]);
            print_opt(init, out);
            out.push(Token::Semi);
            print_opt(condition, out);
            out.push(Token::Semi);
            print_opt(update, out);
            out.push(Token::ParR);
            print_stmt(body, out);
        }
        Stmt::Decl { var_type, var_name } => {
            out.extend([Token::Id(var_type.clone()), Token::Id(var_name.clone()), Token::Semi]);
        }
    }
}

fn print_function(f: &Function, out: &mut Vec<Token>) {
    out.push(Token::Id(f.name.clone()));
    out.push(Token::ParL);
    for (i, p) in f.params.iter().enumerate() {
        if i > 0 {
            out.push(Token::Comma);
        }
        out.push(Token::Id(p.clone()));
    }
    out.push(Token::ParR);
    out.push(Token::BraceL);
    for s in &f.body.statements {
        print_stmt(s, out);
    }
    out.push(Token::BraceR);
}

#[test]
fn printed_programs_parse_back() {
    let source = "int f(int a, int b) { int c; c = a = b * (1 - 2) + -3; if (a) if (b) return 1; else return 2; \
                  while (a < b) { a = a + 1; } for (c = 0; c <= 9; c = c + 1) a = *&a + f(a, b); return a > b; } \
                  int main() { if (1) { if (0) return 3; } else return 4; for (;;) {} return f(1, 2); }";
    let program: Program = parse(&lex(source).unwrap()).unwrap();
    let mut tokens = Vec::new();
    for f in &program.functions {
        print_function(f, &mut tokens);
    }
    assert_eq!(parse(&tokens), Ok(program));
}

fn count_lines(text: &str, line: &str) -> usize {
    text.lines().filter(|l| *l == line).count()
}

#[test]
fn function_bodies_keep_the_value_stack_balanced() {
    let program = analyze(
        parse(&lex("int f(int a) { if (a) return f(a - 1) + 2 * a; while (a < 3) a = a + 1; return *&a; } int main() { return f(3); }").unwrap())
            .unwrap(),
    )
    .unwrap();
    let assembly = generate(&program);
    // main's 16-byte frame adds one line each way; everything else is value-stack traffic.
    assert_eq!(count_lines(&assembly, "addi sp,sp,-16"), count_lines(&assembly, "addi sp,sp,16"));
    assert!(count_lines(&assembly, "addi sp,sp,-16") > 0);
}

#[test]
fn each_branching_statement_takes_one_label() {
    let program = analyze(
        parse(&lex("int main() { int a; if (a) { while (a) a = 0; } else for (;;) if (a) return 1; return 0; }").unwrap())
            .unwrap(),
    )
    .unwrap();
    let assembly = generate(&program);
    for n in 0..4 {
        assert!(assembly.contains(&format!("_{}", n)));
    }
    assert!(!assembly.contains("_4"));
}
