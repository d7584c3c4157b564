use stasis::ast_parser::{ExpressionAST, ParsingError, ProgramAST, parse_number};
use stasis::tokenizer::{Token, Tokenizer};

fn expression(src: &str) -> ExpressionAST {
    let mut t = Tokenizer::new(src);
    assert!(t.verify_syntax());
    ExpressionAST::parse(t).unwrap()
}

fn program(src: &str) -> ProgramAST {
    let mut p = ProgramAST::parse(expression(src)).unwrap();
    p.finalize();
    p
}

fn shape(p: &ProgramAST) -> String {
    format!("{:?}", p)
}

#[test]
fn backtick_flips_application() {
    assert_eq!(shape(&program("{ x `f ; }")), shape(&program("{ f x ; }")));
}

#[test]
fn group_statement_is_flattened() {
    assert_eq!(shape(&program("{ (a b c) ; }")), shape(&program("{ a b c ; }")));
}

#[test]
fn backtick_with_group_argument() {
    assert_eq!(
        shape(&program("{ (+ 1) `double ; }")),
        shape(&program("{ double (+ 1) ; }"))
    );
}

#[test]
fn application_is_left_associative() {
    let p = program("{ f a b ; }");
    match p {
        ProgramAST::FunctionDef(d) => {
            assert_eq!(d.block.len(), 1);
            match &d.block[0] {
                ProgramAST::FunctionCall { function, arg } => {
                    assert!(matches!(**arg, ProgramAST::FunctionRef { ref token } if token == "b"));
                    assert!(matches!(**function, ProgramAST::FunctionCall { .. }));
                }
                _ => panic!("expected a call"),
            }
        }
        _ => panic!("expected a function literal"),
    }
}

#[test]
fn finalize_strips_backticks() {
    let mut p = ProgramAST::parse(expression("{ x `f ; }")).unwrap();
    assert!(shape(&p).contains("`f"));
    p.finalize();
    assert!(!shape(&p).contains('`'));
}

#[test]
fn numerals_become_numbers() {
    let p = program("{ 42 ; }");
    match p {
        ProgramAST::FunctionDef(d) => {
            assert!(matches!(d.block[0], ProgramAST::Value { value: 42 }));
        }
        _ => panic!("expected a function literal"),
    }
}

#[test]
fn block_parameters_are_read() {
    let p = program("{ { a b => + a b ; } ; }");
    match p {
        ProgramAST::FunctionDef(d) => match &d.block[0] {
            ProgramAST::FunctionDef(inner) => {
                assert_eq!(inner.arg_tokens, vec!["a".to_string(), "b".to_string()]);
                assert_eq!(inner.block.len(), 1);
            }
            _ => panic!("expected an inner literal"),
        },
        _ => panic!("expected a function literal"),
    }
}

#[test]
fn trailing_empty_statement_is_dropped() {
    match expression("{ a ; }") {
        ExpressionAST::CodeBlock(args, stmts) => {
            assert!(args.is_empty());
            assert_eq!(stmts.len(), 1);
        }
        _ => panic!("expected a block"),
    }
    match ExpressionAST::parse(Tokenizer::new("{ }")).unwrap() {
        ExpressionAST::CodeBlock(_, stmts) => assert!(stmts.is_empty()),
        _ => panic!("expected a block"),
    }
}

#[test]
fn semicolon_inside_parentheses_is_an_error() {
    let t = Tokenizer::new("{ (a ; b) ; }");
    assert!(ExpressionAST::parse(t).is_err());
}

#[test]
fn non_word_parameter_is_an_error() {
    let t = Tokenizer::new("{ ( => a ; }");
    assert!(ExpressionAST::parse(t).is_err());
}

#[test]
fn top_level_group_is_rejected() {
    let e = expression("a b");
    assert!(matches!(
        ProgramAST::parse(e),
        Err(ParsingError::UnexpectedTopLevelExpression(_))
    ));
}

#[test]
fn top_level_word_is_accepted() {
    let e = expression("7");
    assert!(matches!(ProgramAST::parse(e), Ok(ProgramAST::Value { value: 7 })));
}

#[test]
fn top_level_delimiter_is_rejected() {
    assert!(matches!(
        ProgramAST::parse(ExpressionAST::Terminal(Token::EndStatement)),
        Err(ParsingError::UnexpectedNonFunctionToken(_))
    ));
}

#[test]
fn empty_statement_is_rejected() {
    let e = expression("{ a ; ; }");
    assert!(matches!(
        ProgramAST::parse(e),
        Err(ParsingError::UnexpectedEmptyExpression)
    ));
}

#[test]
fn numbers_parse_like_unsigned_integers() {
    assert_eq!(parse_number("0"), Some(0));
    assert_eq!(parse_number("+15"), Some(15));
    assert_eq!(parse_number("18446744073709551615"), Some(usize::MAX));
    assert_eq!(parse_number("18446744073709551616"), None);
    assert_eq!(parse_number("-1"), None);
    assert_eq!(parse_number("+"), None);
    assert_eq!(parse_number(""), None);
    assert_eq!(parse_number("1a"), None);
}

#[test]
fn print_ast_renders_calls_literals_and_numbers() {
    assert_eq!(program("{ + 1 2 ; }").print_ast(), "{  =>\n  +(N(1))(N(2));\n}");
    assert_eq!(
        program("{ { a b => a ; } ; }").print_ast(),
        "{  =>\n  { a b =>\n    a;\n  };\n}"
    );
    assert_eq!(ProgramAST::Value { value: 1234 }.print_ast(), "N(1234)");
}

#[test]
fn printed_source_reads_back_as_the_same_tree() {
    for src in [
        "{ + 1 2 ; }",
        "{ { a b => + a b ; } 1 2 ; }",
        "{ let { x ; } 7 ; + x 1 ; }",
        "{ f (g x) { y ; } ; }",
        "{ x `f ; }",
    ] {
        let p = program(src);
        let q = program(&p.to_source());
        assert_eq!(shape(&p), shape(&q));
    }
    assert_eq!(program("{ f (g x) ; }").to_source(), "{ => f ( g x ) ; } ");
}

#[test]
fn stripped_numeral_reference_does_not_read_back() {
    let p = program("{ `5 ; }");
    assert!(shape(&p).contains("FunctionRef"));
    let q = program(&p.to_source());
    assert!(shape(&q).contains("Value"));
}
