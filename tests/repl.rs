use stasis::ast_parser::ProgramAST;
use stasis::builtin::create_builtin_interpreter;
use stasis::interpreter::Value;
use stasis::repl::{parse_command, wrap_line, Command, CommandError};

#[test]
fn lines_without_brace_are_wrapped() {
    assert_eq!(wrap_line("+ 1 2"), "{+ 1 2;}");
    assert_eq!(wrap_line("{ 1 ; }"), "{ 1 ; }");
    assert_eq!(wrap_line(""), "{;}");
}

#[test]
fn definitions_are_recognised() {
    match parse_command(": inc { x => + x 1 ; }") {
        Ok(Command::Define(name, def)) => {
            assert_eq!(name, "inc");
            assert_eq!(def.arg_tokens, vec!["x".to_string()]);
        }
        other => panic!("expected a definition, got {:?}", other),
    }
    assert!(matches!(
        parse_command(": seven 7"),
        Err(CommandError::NotAFunctionDefinition)
    ));
    assert!(matches!(parse_command(": { 1 ; }"), Err(CommandError::MissingName)));
}

#[test]
fn commands_evaluate_with_definitions() {
    let mut i = create_builtin_interpreter();
    match parse_command(": inc { x => + x 1 ; }") {
        Ok(Command::Define(name, def)) => i.register_func(name, def),
        other => panic!("expected a definition, got {:?}", other),
    }
    match parse_command(&wrap_line("inc 41")) {
        Ok(Command::Evaluate(p)) => {
            assert!(matches!(p, ProgramAST::FunctionDef(_)));
            assert!(matches!(i.run_anonym_func(p, vec![]), Ok(Value::Number(42))));
        }
        other => panic!("expected a program, got {:?}", other),
    }
}

#[test]
fn syntax_errors_are_reported() {
    assert!(matches!(parse_command("{ 1 }"), Err(CommandError::Syntax)));
    assert!(matches!(
        parse_command("{ (1 ; }"),
        Err(CommandError::Expression(_))
    ));
    assert!(matches!(parse_command("{ a ; ; }"), Err(CommandError::Program(_))));
}
