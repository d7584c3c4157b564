use stasis::tokenizer::{Token, Tokenizer};

fn words(src: &str) -> Vec<String> {
    let mut t = Tokenizer::new(src);
    let mut out = Vec::new();
    while let Some(tok) = t.next() {
        out.push(match tok {
            Token::Token(w) => w,
            Token::OpeningBracket => "(".to_string(),
            Token::ClosingBracket => ")".to_string(),
            Token::OpeningCodeBlock => "{".to_string(),
            Token::ClosingCodeBlock => "}".to_string(),
            Token::EndStatement => ";".to_string(),
        });
    }
    out
}

#[test]
fn delimiters_are_tokens_of_their_own() {
    assert_eq!(words("{a(b)c;}"), vec!["{", "a", "(", "b", ")", "c", ";", "}"]);
}

#[test]
fn whitespace_and_newlines_separate() {
    assert_eq!(words("  foo\n bar\tbaz  "), vec!["foo", "bar", "baz"]);
}

#[test]
fn empty_input_has_no_tokens() {
    assert!(words("").is_empty());
}

#[test]
fn syntax_check_wants_semicolon_before_closing_brace() {
    assert!(Tokenizer::new("{ a ; }").verify_syntax());
    assert!(!Tokenizer::new("{ a }").verify_syntax());
    assert!(!Tokenizer::new("}").verify_syntax());
}

#[test]
fn syntax_check_resets_cursor() {
    let mut t = Tokenizer::new("{ a ; }");
    t.next();
    t.next();
    assert_eq!(t.pos(), 2);
    assert!(t.verify_syntax());
    assert_eq!(t.pos(), 0);
}

#[test]
fn back_rewinds_one_token_and_stops_at_start() {
    let mut t = Tokenizer::new("a b");
    t.back();
    assert_eq!(t.pos(), 0);
    t.next();
    t.back();
    assert_eq!(t.pos(), 0);
}

#[test]
fn lookahead_finds_target_before_stop_tokens() {
    let t = Tokenizer::new("a b => c }");
    let arrow = Token::Token("=>".to_string());
    let stops = [Token::ClosingCodeBlock, Token::OpeningCodeBlock];
    assert!(t.lookahead_until(&stops, &arrow));
    let t = Tokenizer::new("a } => c");
    assert!(!t.lookahead_until(&stops, &arrow));
    let t = Tokenizer::new("");
    assert!(!t.lookahead_until(&stops, &arrow));
}
