use stasis::ast_parser::{ExpressionAST, FunctionDef, ProgramAST};
use stasis::builtin::{create_builtin_interpreter, Builtin};
use stasis::interpreter::{
    FunctionContext, InterpreterContext, InterpreterFunctionDef, Output, RuntimeError, Value,
    ValueFunction,
};
use stasis::tokenizer::Tokenizer;

fn program(src: &str) -> ProgramAST {
    let mut t = Tokenizer::new(src);
    assert!(t.verify_syntax());
    let e = ExpressionAST::parse(t).unwrap();
    let mut p = ProgramAST::parse(e).unwrap();
    p.finalize();
    p
}

fn function(src: &str) -> FunctionDef {
    match program(src) {
        ProgramAST::FunctionDef(d) => d,
        _ => panic!("expected a function literal"),
    }
}

fn eval_in(i: &mut InterpreterContext, src: &str) -> Result<Value, RuntimeError> {
    i.run_anonym_func(program(src), vec![])
}

fn eval(src: &str) -> Result<Value, RuntimeError> {
    let mut i = create_builtin_interpreter();
    eval_in(&mut i, src)
}

fn number(r: Result<Value, RuntimeError>) -> usize {
    match r {
        Ok(Value::Number(n)) => n,
        other => panic!("expected a number, got {:?}", other),
    }
}

#[test]
fn addition() {
    assert_eq!(number(eval("{ + 1 2 ; }")), 3);
}

#[test]
fn subtraction_wraps_below_zero() {
    assert_eq!(number(eval("{ - 2 5 ; }")), usize::MAX - 3);
    assert_eq!(number(eval("{ - 5 2 ; }")), 3);
}

#[test]
fn lambda_with_parameters_is_curried() {
    assert_eq!(number(eval("{ { a b => + a b ; } 1 2 ; }")), 3);
}

#[test]
fn let_binds_in_the_current_frame() {
    assert_eq!(number(eval("{ let { x ; } 7 ; + x 1 ; }")), 8);
}

#[test]
fn if_runs_the_selected_thunk() {
    assert_eq!(number(eval("{ if { not 0 ; } { 42 ; } { 0 ; } ; }")), 42);
    assert_eq!(number(eval("{ if 0 { 42 ; } { 5 ; } ; }")), 5);
    assert_eq!(number(eval("{ if 1 2 3 ; }")), 0);
}

#[test]
fn backtick_applies_the_function_to_the_group() {
    let mut i = create_builtin_interpreter();
    i.register_func("double".to_string(), function("{ x => + x x ; }"));
    assert_eq!(number(eval_in(&mut i, "{ 4 `double ; }")), 8);
    // `double (+ 1)` adds the closure to itself, which `+` refuses.
    assert!(matches!(
        eval_in(&mut i, "{ (+ 1) `double ; }"),
        Err(RuntimeError::ExplicitlyRaised)
    ));
}

#[test]
fn partial_application_yields_a_closure() {
    match eval("{ + 1 ; }") {
        Ok(Value::Function(f)) => {
            assert_eq!(f.bound_variables.len(), 1);
            assert!(matches!(f.bound_variables[0], Value::Number(1)));
        }
        other => panic!("expected a closure, got {:?}", other),
    }
    assert_eq!(number(eval("{ let { inc ; } (+ 1) ; inc 41 ; }")), 42);
}

#[test]
fn apply_collects_until_arity_then_invokes() {
    let mut i = create_builtin_interpreter();
    let add = ValueFunction {
        func: InterpreterFunctionDef::BuiltIn {
            name: "+".to_string(),
            arg_count: 2,
            func: Builtin::Add,
        },
        bound_context: vec![],
        bound_variables: vec![],
    };
    let partial = match i.apply(add, Value::Number(10), 100) {
        Ok(Value::Function(f)) => f,
        other => panic!("expected a closure, got {:?}", other),
    };
    assert_eq!(partial.bound_variables.len(), 1);
    assert_eq!(number(i.apply(partial, Value::Number(5), 100)), 15);
}

#[test]
fn multiplication_and_not() {
    assert_eq!(number(eval("{ mul 6 7 ; }")), 42);
    assert_eq!(number(eval("{ not 0 ; }")), 1);
    assert_eq!(number(eval("{ not 9 ; }")), 0);
    assert_eq!(number(eval("{ number? 3 ; }")), 1);
    assert_eq!(number(eval("{ number? { 3 ; } ; }")), 0);
}

#[test]
fn addition_wraps_at_the_word_size() {
    assert_eq!(number(eval("{ + 18446744073709551615 2 ; }")), 1);
}

#[test]
fn runtime_errors() {
    assert!(matches!(
        eval("{ nothing ; }"),
        Err(RuntimeError::UndefinedFunctionReference(n)) if n == "nothing"
    ));
    assert!(matches!(eval("{ 3 4 ; }"), Err(RuntimeError::ValueNotAFunction(3))));
    assert!(matches!(eval("{ panic 1 ; }"), Err(RuntimeError::ExplicitlyRaised)));
    assert!(matches!(eval("{ + 1 { 2 ; } ; }"), Err(RuntimeError::ExplicitlyRaised)));
    let mut i = create_builtin_interpreter();
    assert!(matches!(
        i.run_anonym_func(ProgramAST::Value { value: 1 }, vec![]),
        Err(RuntimeError::ValueNotAFunction(0))
    ));
    let empty = FunctionDef { arg_tokens: vec![], block: vec![] };
    assert!(matches!(
        i.run_anonym_func(ProgramAST::FunctionDef(empty), vec![]),
        Err(RuntimeError::EmptyFunction)
    ));
}

#[test]
fn endless_recursion_stops_at_the_depth_limit() {
    let mut i = create_builtin_interpreter();
    i.register_func("loop".to_string(), function("{ x => loop x ; }"));
    assert!(matches!(
        eval_in(&mut i, "{ loop 1 ; }"),
        Err(RuntimeError::DepthExceeded)
    ));
    assert!(i.function_context.is_empty());
}

#[test]
fn frames_are_popped_after_evaluation() {
    let mut i = create_builtin_interpreter();
    assert_eq!(number(eval_in(&mut i, "{ { a => + a 1 ; } 1 ; }")), 2);
    assert!(i.function_context.is_empty());
    assert!(eval_in(&mut i, "{ { a => panic a ; } 1 ; }").is_err());
    assert!(i.function_context.is_empty());
}

#[test]
fn lookup_finds_the_deepest_binding() {
    let mut i = InterpreterContext::new();
    i.function_context.push(FunctionContext(vec![("x".to_string(), Value::Number(1))]));
    i.function_context.push(FunctionContext(vec![
        ("x".to_string(), Value::Number(2)),
        ("x".to_string(), Value::Number(3)),
    ]));
    i.function_context.push(FunctionContext(vec![("y".to_string(), Value::Number(4))]));
    assert!(matches!(i.lookup(&"x".to_string()), Some(Value::Number(3))));
    assert!(matches!(i.lookup(&"y".to_string()), Some(Value::Number(4))));
    assert!(i.lookup(&"z".to_string()).is_none());
}

#[test]
fn scoping_is_dynamic() {
    let mut i = create_builtin_interpreter();
    i.register_func("gety".to_string(), function("{ x => y ; }"));
    assert_eq!(number(eval_in(&mut i, "{ { y => gety 0 ; } 9 ; }")), 9);
}

#[test]
fn later_registrations_shadow_earlier_ones() {
    let mut i = create_builtin_interpreter();
    i.register_func("f".to_string(), function("{ 1 ; }"));
    i.register_func("f".to_string(), function("{ 2 ; }"));
    i.register_builtin("g".to_string(), 1, Builtin::Not);
    assert_eq!(number(eval_in(&mut i, "{ g 0 ; }")), 1);
    match eval_in(&mut i, "{ f ; }") {
        Ok(Value::Function(f)) => match f.func {
            InterpreterFunctionDef::FunctionDef { def, .. } => {
                assert!(matches!(def.block[0], ProgramAST::Value { value: 2 }))
            }
            _ => panic!("expected a user function"),
        },
        other => panic!("expected a closure, got {:?}", other),
    }
}

#[test]
fn bind_captures_current_values() {
    let mut i = create_builtin_interpreter();
    let r = eval_in(&mut i, "{ let { n ; } 5 ; let { f ; } (bind { n ; } { n ; }) ; f ; }");
    match r {
        Ok(Value::Function(f)) => {
            assert_eq!(f.bound_context.len(), 1);
            assert_eq!(f.bound_context[0].0, "n");
            assert!(matches!(f.bound_context[0].1, Value::Number(5)));
        }
        other => panic!("expected a closure, got {:?}", other),
    }
    assert!(eval("{ bind { missing ; } { 1 ; } ; }").is_err());
}

#[test]
fn heap_natives() {
    let mut i = create_builtin_interpreter();
    assert_eq!(number(eval_in(&mut i, "{ alloc 3 ; }")), 0x1024);
    assert_eq!(number(eval_in(&mut i, "{ alloc 2 ; }")), 0x1024 + 3);
    assert_eq!(number(eval_in(&mut i, "{ len 4132 ; }")), 3);
    assert_eq!(number(eval_in(&mut i, "{ = 4133 65 ; }")), 1);
    assert_eq!(number(eval_in(&mut i, "{ * 4133 ; }")), 65);
    assert_eq!(number(eval_in(&mut i, "{ * 4132 ; }")), 0);
    assert!(eval_in(&mut i, "{ * 1 ; }").is_err());
    assert!(eval_in(&mut i, "{ = 1 1 ; }").is_err());
    assert!(eval_in(&mut i, "{ len 4133 ; }").is_err());
}

#[test]
fn heap_state_cells() {
    let mut i = create_builtin_interpreter();
    assert_eq!(i.state.allocate(2), Some(0x1024));
    assert_eq!(i.state.get(0x1025), Some(0));
    assert!(i.state.set(0x1025, 9));
    assert_eq!(i.state.get(0x1025), Some(9));
    assert!(!i.state.set(0x1026, 9));
    assert_eq!(i.state.get(0x1026), None);
}

#[test]
fn print_records_values_and_text() {
    let mut i = create_builtin_interpreter();
    assert_eq!(number(eval_in(&mut i, "{ print 7 ; }")), 7);
    let addr = number(eval_in(&mut i, "{ alloc 2 ; }"));
    assert!(i.state.set(addr, 104));
    assert!(i.state.set(addr + 1, 105));
    assert_eq!(number(eval_in(&mut i, &format!("{{ printstr {} ; }}", addr))), addr);
    assert_eq!(i.printed.len(), 2);
    assert!(matches!(i.printed[0], Output::Value(Value::Number(7))));
    match &i.printed[1] {
        Output::Text(t) => assert_eq!(t, &vec![104, 105]),
        _ => panic!("expected text"),
    }
}

#[test]
fn run_evaluates_leaves() {
    let mut i = create_builtin_interpreter();
    assert!(matches!(i.run(ProgramAST::Value { value: 5 }), Ok(Value::Number(5))));
    assert!(matches!(
        i.run(ProgramAST::FunctionRef { token: "+".to_string() }),
        Ok(Value::Function(_))
    ));
}
