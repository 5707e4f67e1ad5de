use lr0_parser_rs::GeneratorEngine;

const EXPR_GRAMMAR: &str = "E -> E*B\nE -> E+B\nE -> B\nB -> 0\nB -> 1";

fn engine_with_roles() -> GeneratorEngine {
    let mut engine = GeneratorEngine::new();
    engine.set_terminal_types(vec![
        ('1', String::from("Num")),
        ('0', String::from("Num")),
        ('+', String::from("Add")),
        ('*', String::from("Mul")),
    ]);
    engine
}

#[test]
fn generate_code_renders_an_expression() {
    let engine = engine_with_roles();
    let code = engine.generate_code(EXPR_GRAMMAR, "1+1");
    assert_eq!(
        code,
        "// Generated Rust code from AST\nfn main() {\n    let result_1 = (1 + 1); \
         // Evaluated expression\n    println!(\"Result: {}\", result_1);\n}\n"
    );
}

#[test]
fn generate_code_nests_operations() {
    let engine = engine_with_roles();
    let code = engine.generate_code(EXPR_GRAMMAR, "1+1*0");
    assert!(code.contains("let result_1 = (0 * (1 + 1));"));
}

#[test]
fn generate_code_without_roles_names_tokens() {
    let engine = GeneratorEngine::new();
    let code = engine.generate_code(EXPR_GRAMMAR, "1");
    assert!(code.contains("let result_1 = token_1;"));
}

#[test]
fn generate_code_reports_bad_grammar() {
    let engine = GeneratorEngine::new();
    let code = engine.generate_code("no arrow", "1+1");
    assert_eq!(
        code,
        "Failed to create parser for code generation: Invalid reducer format: no arrow"
    );
}

#[test]
fn generate_code_reports_failed_parse() {
    let engine = engine_with_roles();
    let code = engine.generate_code(EXPR_GRAMMAR, "1+");
    assert_eq!(
        code,
        "No AST available. Please parse first or check your input."
    );
}

#[test]
fn run_rust_code_is_a_stub() {
    let engine = GeneratorEngine::new();
    assert_eq!(
        engine.run_rust_code(""),
        "No code to run. Please generate code first."
    );
    assert_eq!(engine.run_rust_code("fn main() {}"), "Not implemented");
}

#[test]
fn default_engine_has_no_roles() {
    let engine = GeneratorEngine::default();
    assert_eq!(engine.terminal_types.len(), 0);
}
