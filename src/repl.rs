use vstd::prelude::*;
use crate::ast_parser::{
    ExpressionAST, ExpressionTreeParsingError, FunctionDef, ParsingError, Prog, ProgramAST,
    finalized, lower_top, parse_seq,
};
use crate::tokenizer::{Tok, Token, Tokenizer, lex, syntax_ok};

verus! {

/// One input of the interactive shell: a named definition (`: name { ... }`),
/// or a program to evaluate.
#[derive(Debug)]
pub enum Command {
    Define(String, FunctionDef),
    Evaluate(ProgramAST),
}

/// Why an input could not be read as a command.
#[derive(Debug)]
pub enum CommandError {
    /// A `}` not directly preceded by `;`.
    Syntax,
    Expression(ExpressionTreeParsingError),
    Program(ParsingError),
    /// `:` not followed by a name.
    MissingName,
    /// A definition whose body is not a function literal.
    NotAFunctionDefinition,
}

/// A line as the shell reads it: one that does not start with `{` is
/// wrapped as `{ line ;}`.
pub fn wrap_line(line: &str) -> (r: String)
    ensures
        line@.len() > 0 && line@[0] == '{' ==> r@ == line@,
        !(line@.len() > 0 && line@[0] == '{') ==> r@ == "{"@ + line@ + ";}"@,
{
    if line.unicode_len() > 0 && line.get_char(0) == '{' {
        line.to_owned()
    } else {
        let mut r = String::from_str("{");
        r.append(line);
        r.append(";}");
        r
    }
}

/// The program the tokens hold from `start`: parsed, lowered, and with
/// back-ticks stripped; none where parsing or lowering fails.
pub open spec fn program_of(t: Seq<Tok>, start: int) -> Option<Prog> {
    match parse_seq(t, start, true, Seq::empty()).0 {
        Ok(e) => match lower_top(e) {
            Ok(q) => Some(finalized(q)),
            Err(_) => None,
        },
        Err(_) => None,
    }
}

/// The tokens start with the definition marker `:`.
pub open spec fn is_definition(t: Seq<Tok>) -> bool {
    t.len() > 0 && t[0] == Tok::Word(":"@)
}

/// Whether a word is the definition marker `:`.
fn is_colon(w: &String) -> (r: bool)
    ensures
        r == (w@ == ":"@),
{
    proof {
        reveal_strlit(":");
    }
    let s = w.as_str();
    let r = s.unicode_len() == 1 && s.get_char(0) == ':';
    proof {
        if r {
            assert(w@ =~= ":"@);
        }
    }
    r
}

/// Reads an input as a command: the syntax check, then, after a leading
/// `:` and name, or from the start, the program tree with back-ticks
/// stripped.
pub fn parse_command(src: &str) -> (r: Result<Command, CommandError>)
    ensures
        (r matches Err(CommandError::Syntax)) == !syntax_ok(lex(src@)),
        r matches Ok(Command::Define(n, d)) ==> is_definition(lex(src@)) && lex(src@).len() >= 2
            && lex(src@)[1] == Tok::Word(n@) && program_of(lex(src@), 2) == Some(d@),
        r matches Ok(Command::Evaluate(p)) ==> !is_definition(lex(src@)) && program_of(lex(src@), 0)
            == Some(p@),
        syntax_ok(lex(src@)) && !is_definition(lex(src@)) && program_of(lex(src@), 0) is Some ==> r is Ok,
        syntax_ok(lex(src@)) && is_definition(lex(src@)) && lex(src@).len() >= 2 && lex(src@)[1] is Word
            && (program_of(lex(src@), 2) matches Some(Prog::Lambda(_, _))) ==> r is Ok,
{
    let mut tokenizer = Tokenizer::new(src);
    if !tokenizer.verify_syntax() {
        return Err(CommandError::Syntax);
    }
    let mut name: Option<String> = None;
    match tokenizer.next() {
        Some(Token::Token(t)) => {
            if is_colon(&t) {
                match tokenizer.next() {
                    Some(Token::Token(n)) => {
                        name = Some(n);
                    },
                    _ => return Err(CommandError::MissingName),
                }
            } else {
                tokenizer.back();
            }
        },
        Some(_) => tokenizer.back(),
        None => {},
    }
    let ast = match ExpressionAST::parse(tokenizer) {
        Ok(a) => a,
        Err(e) => return Err(CommandError::Expression(e)),
    };
    let mut program = match ProgramAST::parse(ast) {
        Ok(p) => p,
        Err(e) => return Err(CommandError::Program(e)),
    };
    program.finalize();
    match name {
        Some(n) => match program {
            ProgramAST::FunctionDef(def) => Ok(Command::Define(n, def)),
            _ => Err(CommandError::NotAFunctionDefinition),
        },
        None => Ok(Command::Evaluate(program)),
    }
}

} // verus!
