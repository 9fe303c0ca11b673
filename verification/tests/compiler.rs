use rvcc::compiler::compile;

#[test]
fn compiles_the_readme_example() {
    let assembly = compile(
        "int add(int x, int y) {
             return x + y;
         }

         int main() {
             int a;
             int b;
             a = 3;
             b = 10;
             return add(a, b);
         }",
    )
    .unwrap();
    assert!(assembly.starts_with(".globl main\nadd:\n"));
    assert!(assembly.contains("\nmain:\n"));
    assert!(assembly.contains("call add\n"));
}

#[test]
fn compile_passes_on_each_stage_error() {
    assert_eq!(compile("main() { return 1 @ 2; }"), Err(String::from("Invalid Character at 18")));
    assert_eq!(compile("main() { return 1;"), Err(String::from("Unexpected EOF. '}' is expected.")));
    assert_eq!(compile("main() { return x; }"), Err(String::from("undefined variable: 'x'")));
    assert_eq!(compile(""), Err(String::from("program must define main()")));
}
