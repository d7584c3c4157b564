use vstd::prelude::*;
use crate::tokenizer::{Tok, Token, Tokenizer, reaches_before, toks};

verus! {

/// A node of the expression tree: a parenthesised (or top-level) sequence,
/// a braced block with parameter names and statements, or a single token.
#[derive(Debug)]
pub enum ExpressionAST {
    SubExpression(Vec<ExpressionAST>),
    CodeBlock(Vec<String>, Vec<Vec<ExpressionAST>>),
    Terminal(Token),
}

/// The mathematical model of an expression tree.
pub enum Expr {
    Group(Seq<Expr>),
    Block(Seq<Seq<char>>, Seq<Seq<Expr>>),
    Atom(Tok),
}

/// The models of a list of strings.
pub open spec fn strs(v: Seq<String>) -> Seq<Seq<char>> {
    v.map_values(|s: String| s@)
}

impl ExpressionAST {
    pub open spec fn view(&self) -> Expr
        decreases self, 0nat,
    {
        match self {
            ExpressionAST::SubExpression(v) => Expr::Group(expr_views(v@)),
            ExpressionAST::CodeBlock(a, b) => Expr::Block(strs(a@), stmt_views(b@)),
            ExpressionAST::Terminal(t) => Expr::Atom(t@),
        }
    }
}

/// The models of a list of expressions.
pub open spec fn expr_views(s: Seq<ExpressionAST>) -> Seq<Expr>
    decreases s, s.len(),
{
    if s.len() == 0 {
        Seq::empty()
    } else {
        expr_views(s.drop_last()).push(s.last().view())
    }
}

/// The models of a list of statements.
pub open spec fn stmt_views(s: Seq<Vec<ExpressionAST>>) -> Seq<Seq<Expr>>
    decreases s, s.len(),
{
    if s.len() == 0 {
        Seq::empty()
    } else {
        stmt_views(s.drop_last()).push(expr_views(s.last()@))
    }
}

/// Expression-tree parsing failed at this token position.
#[derive(Debug)]
pub struct ExpressionTreeParsingError(pub usize);

/// A user function literal: parameter names and body statements.
#[derive(Debug)]
pub struct FunctionDef {
    pub arg_tokens: Vec<String>,
    pub block: Vec<ProgramAST>,
}

/// A node of the program tree.
#[derive(Debug)]
pub enum ProgramAST {
    FunctionCall { function: Box<ProgramAST>, arg: Box<ProgramAST> },
    FunctionDef(FunctionDef),
    FunctionRef { token: String },
    Value { value: usize },
}

/// Why lowering an expression tree to a program tree failed.
#[derive(Debug)]
pub enum ParsingError {
    UnexpectedNonFunctionToken(Token),
    UnexpectedExpressionTokenInLogicParsingPhase(Token),
    DidntParseWholeInput(ExpressionAST),
    UnexpectedEmptyExpression,
    UnexpectedTopLevelExpression(Vec<ExpressionAST>),
}

/// The mathematical model of a program tree.
pub enum Prog {
    Call(Box<Prog>, Box<Prog>),
    Lambda(Seq<Seq<char>>, Seq<Prog>),
    Ref(Seq<char>),
    Num(nat),
}

/// The mathematical model of a `ParsingError`.
pub enum PErr {
    NonFunctionToken(Tok),
    ExpressionToken(Tok),
    NotWhole,
    Empty,
    TopLevel,
}

impl ParsingError {
    pub open spec fn view(&self) -> PErr {
        match self {
            ParsingError::UnexpectedNonFunctionToken(t) => PErr::NonFunctionToken(t@),
            ParsingError::UnexpectedExpressionTokenInLogicParsingPhase(t) => PErr::ExpressionToken(
                t@,
            ),
            ParsingError::DidntParseWholeInput(_) => PErr::NotWhole,
            ParsingError::UnexpectedEmptyExpression => PErr::Empty,
            ParsingError::UnexpectedTopLevelExpression(_) => PErr::TopLevel,
        }
    }
}

impl FunctionDef {
    /// A copy of the function literal.
    pub fn copy(&self) -> (r: FunctionDef)
        ensures
            r@ == self@,
    {
        let mut out: Vec<ProgramAST> = Vec::new();
        let mut i: usize = 0;
        while i < self.block.len()
            invariant
                i <= self.block@.len(),
                out@.len() == i,
                forall|k: int| 0 <= k < i ==> #[trigger] out@[k]@ == self.block@[k]@,
            decreases self.block@.len() - i,
        {
            out.push(self.block[i].copy());
            i = i + 1;
        }
        proof {
            lemma_prog_views(out@);
            lemma_prog_views(self.block@);
            assert(prog_views(out@) =~= prog_views(self.block@));
        }
        FunctionDef { arg_tokens: copy_strings(&self.arg_tokens), block: out }
    }

    pub open spec fn view(&self) -> Prog {
        Prog::Lambda(strs(self.arg_tokens@), prog_views(self.block@))
    }
}

impl ProgramAST {
    pub open spec fn view(&self) -> Prog
        decreases self, 2nat,
    {
        match self {
            ProgramAST::FunctionCall { function, arg } => Prog::Call(
                Box::new(function.view()),
                Box::new(arg.view()),
            ),
            ProgramAST::FunctionDef(d) => Prog::Lambda(strs(d.arg_tokens@), prog_views(d.block@)),
            ProgramAST::FunctionRef { token } => Prog::Ref(token@),
            ProgramAST::Value { value } => Prog::Num(*value as nat),
        }
    }
}

/// The models of a list of program trees.
pub open spec fn prog_views(s: Seq<ProgramAST>) -> Seq<Prog>
    decreases s, s.len(),
{
    if s.len() == 0 {
        Seq::empty()
    } else {
        prog_views(s.drop_last()).push(s.last().view())
    }
}

pub proof fn lemma_prog_views(s: Seq<ProgramAST>)
    ensures
        prog_views(s).len() == s.len(),
        forall|i: int| 0 <= i < s.len() ==> #[trigger] prog_views(s)[i] == s[i]@,
    decreases s.len(),
{
    if s.len() > 0 {
        lemma_prog_views(s.drop_last());
    }
}

pub proof fn lemma_expr_views(s: Seq<ExpressionAST>)
    ensures
        expr_views(s).len() == s.len(),
        forall|i: int| 0 <= i < s.len() ==> #[trigger] expr_views(s)[i] == s[i]@,
    decreases s.len(),
{
    if s.len() > 0 {
        lemma_expr_views(s.drop_last());
    }
}

pub proof fn lemma_stmt_views(s: Seq<Vec<ExpressionAST>>)
    ensures
        stmt_views(s).len() == s.len(),
        forall|i: int| 0 <= i < s.len() ==> #[trigger] stmt_views(s)[i] == expr_views(s[i]@),
    decreases s.len(),
{
    if s.len() > 0 {
        lemma_stmt_views(s.drop_last());
    }
}

pub proof fn lemma_strs(s: Seq<String>)
    ensures
        strs(s).len() == s.len(),
        forall|i: int| 0 <= i < s.len() ==> #[trigger] strs(s)[i] == s[i]@,
{
}

pub open spec fn is_digit(c: char) -> bool {
    '0' <= c && c <= '9'
}

/// The value of a string of decimal digits.
pub open spec fn digits_value(w: Seq<char>) -> nat
    decreases w.len(),
{
    if w.len() == 0 {
        0
    } else {
        digits_value(w.drop_last()) * 10 + ((w.last() as u32) - ('0' as u32)) as nat
    }
}

/// The digits of a numeral: the word without its leading `+`, if any.
pub open spec fn numeral_digits(w: Seq<char>) -> Seq<char> {
    if w.len() > 0 && w[0] == '+' {
        w.drop_first()
    } else {
        w
    }
}

/// The value of a word that reads as an unsigned machine integer: an optional
/// `+` followed by one or more decimal digits, at most `usize::MAX`.
pub open spec fn parse_num(w: Seq<char>) -> Option<nat> {
    let d = numeral_digits(w);
    if d.len() > 0 && (forall|i: int| 0 <= i < d.len() ==> is_digit(#[trigger] d[i]))
        && digits_value(d) <= usize::MAX {
        Some(digits_value(d))
    } else {
        None
    }
}

proof fn lemma_digits_value_grows(d: Seq<char>, k: int)
    requires
        0 <= k <= d.len(),
        forall|i: int| 0 <= i < d.len() ==> is_digit(#[trigger] d[i]),
    ensures
        digits_value(d.take(k)) <= digits_value(d),
    decreases d.len() - k,
{
    if k < d.len() {
        lemma_digits_value_grows(d, k + 1);
        assert(d.take(k + 1).drop_last() =~= d.take(k));
    } else {
        assert(d.take(k) =~= d);
    }
}

/// Reads a word as an unsigned machine integer, as `parse_num` says.
pub fn parse_number(s: &str) -> (r: Option<usize>)
    ensures
        r matches Some(n) ==> parse_num(s@) == Some(n as nat),
        r is None ==> parse_num(s@) is None,
{
    let len = s.unicode_len();
    let mut i: usize = 0;
    if len > 0 && s.get_char(0) == '+' {
        i = 1;
    }
    let start = i;
    let ghost d = numeral_digits(s@);
    proof {
        assert(d =~= s@.skip(start as int));
    }
    if start == len {
        return None;
    }
    let mut j: usize = start;
    while j < len
        invariant
            start <= j <= len,
            len == s@.len(),
            d == s@.skip(start as int),
            d == numeral_digits(s@),
            forall|k: int| 0 <= k < j - start ==> is_digit(#[trigger] d[k]),
        decreases len - j,
    {
        let c = s.get_char(j);
        if !('0' <= c && c <= '9') {
            proof {
                assert(!is_digit(d[j - start]));
            }
            return None;
        }
        j = j + 1;
    }
    let mut v: usize = 0;
    let mut k: usize = start;
    while k < len
        invariant
            start <= k <= len,
            len == s@.len(),
            d == s@.skip(start as int),
            d == numeral_digits(s@),
            forall|m: int| 0 <= m < d.len() ==> is_digit(#[trigger] d[m]),
            v as nat == digits_value(d.take(k - start)),
        decreases len - k,
    {
        let c = s.get_char(k);
        assert(d[k - start] == c);
        assert(is_digit(c));
        let digit = (c as u32 - '0' as u32) as usize;
        proof {
            assert(d.take(k - start + 1).drop_last() =~= d.take(k - start));
            assert(d.take(k - start + 1).last() == c);
        }
        if v > (usize::MAX - digit) / 10 {
            proof {
                assert(digits_value(d.take(k - start + 1)) == v * 10 + digit);
                assert(v * 10 + digit > usize::MAX) by (nonlinear_arith)
                    requires v > (usize::MAX - digit) / 10, digit <= 9;
                lemma_digits_value_grows(d, k - start + 1);
            }
            return None;
        }
        proof {
            assert(v * 10 + digit <= usize::MAX) by (nonlinear_arith)
                requires v <= (usize::MAX - digit) / 10, digit <= 9;
        }
        v = v * 10 + digit;
        k = k + 1;
    }
    proof {
        assert(d.take(len - start) =~= d);
    }
    Some(v)
}

/// The word begins with a back-tick.
pub open spec fn has_backtick(w: Seq<char>) -> bool {
    w.len() > 0 && w[0] == '`'
}

/// A word of the program: a numeral becomes a number, anything else a reference.
pub open spec fn lower_word(w: Seq<char>) -> Prog {
    match parse_num(w) {
        Some(n) => Prog::Num(n),
        None => Prog::Ref(w),
    }
}

/// Applies `prev` to `cur`, or `cur` to `prev` where `cur` is a back-tick reference.
pub open spec fn combine(prev: Prog, cur: Prog) -> Prog {
    match cur {
        Prog::Ref(n) => if has_backtick(n) {
            Prog::Call(Box::new(cur), Box::new(prev))
        } else {
            Prog::Call(Box::new(prev), Box::new(cur))
        },
        _ => Prog::Call(Box::new(prev), Box::new(cur)),
    }
}

/// The program tree of one expression.
pub open spec fn lower_expr(e: Expr) -> Result<Prog, PErr>
    decreases e, 0nat,
{
    match e {
        Expr::Group(cs) => lower_stmt(cs),
        Expr::Block(ps, ss) => match lower_stmts(ss) {
            Ok(b) => Ok(Prog::Lambda(ps, b)),
            Err(x) => Err(x),
        },
        Expr::Atom(t) => match t {
            Tok::Word(w) => Ok(lower_word(w)),
            _ => Err(PErr::ExpressionToken(t)),
        },
    }
}

/// The program tree of a statement: its expressions folded from the left.
pub open spec fn lower_stmt(s: Seq<Expr>) -> Result<Prog, PErr>
    decreases s, s.len(),
{
    if s.len() == 0 {
        Err(PErr::Empty)
    } else if s.len() == 1 {
        lower_expr(s[0])
    } else {
        match lower_stmt(s.drop_last()) {
            Err(x) => Err(x),
            Ok(p) => match lower_expr(s.last()) {
                Err(x) => Err(x),
                Ok(c) => Ok(combine(p, c)),
            },
        }
    }
}

/// The program trees of a list of statements; the first failure wins.
pub open spec fn lower_stmts(ss: Seq<Seq<Expr>>) -> Result<Seq<Prog>, PErr>
    decreases ss, ss.len(),
{
    if ss.len() == 0 {
        Ok(Seq::empty())
    } else {
        match lower_stmts(ss.drop_last()) {
            Err(x) => Err(x),
            Ok(ps) => match lower_stmt(ss.last()) {
                Err(x) => Err(x),
                Ok(p) => Ok(ps.push(p)),
            },
        }
    }
}

/// The program tree of a whole input.
pub open spec fn lower_top(e: Expr) -> Result<Prog, PErr> {
    match e {
        Expr::Group(_) => Err(PErr::TopLevel),
        Expr::Block(ps, ss) => match lower_stmts(ss) {
            Ok(b) => Ok(Prog::Lambda(ps, b)),
            Err(x) => Err(x),
        },
        Expr::Atom(t) => match t {
            Tok::Word(w) => Ok(lower_word(w)),
            _ => Err(PErr::NonFunctionToken(t)),
        },
    }
}

/// The model of a lowering result.
pub open spec fn lowered(r: Result<ProgramAST, ParsingError>) -> Result<Prog, PErr> {
    match r {
        Ok(p) => Ok(p@),
        Err(e) => Err(e@),
    }
}

/// Copies a list of strings.
pub fn copy_strings(v: &Vec<String>) -> (r: Vec<String>)
    ensures
        strs(r@) == strs(v@),
{
    let mut out: Vec<String> = Vec::new();
    let mut i: usize = 0;
    while i < v.len()
        invariant
            i <= v@.len(),
            out@.len() == i,
            forall|k: int| 0 <= k < i ==> #[trigger] out@[k]@ == v@[k]@,
        decreases v@.len() - i,
    {
        out.push(v[i].clone());
        i = i + 1;
    }
    proof {
        assert(strs(out@) =~= strs(v@));
    }
    out
}

impl ProgramAST {
    /// The program tree of a word.
    fn lower_word_exec(w: &String) -> (r: ProgramAST)
        ensures
            r@ == lower_word(w@),
    {
        match parse_number(w.as_str()) {
            Some(n) => ProgramAST::Value { value: n },
            None => ProgramAST::FunctionRef { token: w.clone() },
        }
    }

    fn lower_expression(e: &ExpressionAST) -> (r: Result<ProgramAST, ParsingError>)
        ensures
            lowered(r) == lower_expr(e@),
        decreases e,
    {
        match e {
            ExpressionAST::SubExpression(cs) => Self::parse_expression(cs),
            ExpressionAST::CodeBlock(ps, ss) => {
                match Self::lower_statements(ss) {
                    Ok(b) => Ok(ProgramAST::FunctionDef(FunctionDef { arg_tokens: copy_strings(ps), block: b })),
                    Err(x) => Err(x),
                }
            },
            ExpressionAST::Terminal(t) => match t {
                Token::Token(w) => Ok(Self::lower_word_exec(w)),
                _ => Err(ParsingError::UnexpectedExpressionTokenInLogicParsingPhase(t.copy())),
            },
        }
    }

    fn lower_statements(ss: &Vec<Vec<ExpressionAST>>) -> (r: Result<Vec<ProgramAST>, ParsingError>)
        ensures
            match r {
                Ok(b) => lower_stmts(stmt_views(ss@)) == Ok::<Seq<Prog>, PErr>(prog_views(b@)),
                Err(x) => lower_stmts(stmt_views(ss@)) == Err::<Seq<Prog>, PErr>(x@),
            },
        decreases ss,
    {
        let ghost sv = stmt_views(ss@);
        proof {
            lemma_stmt_views(ss@);
        }
        let mut out: Vec<ProgramAST> = Vec::new();
        let mut i: usize = 0;
        while i < ss.len()
            invariant
                i <= ss@.len(),
                sv == stmt_views(ss@),
                sv.len() == ss@.len(),
                forall|k: int| 0 <= k < ss@.len() ==> #[trigger] sv[k] == expr_views(ss@[k]@),
                out@.len() == i,
                lower_stmts(sv.take(i as int)) == Ok::<Seq<Prog>, PErr>(prog_views(out@)),
            decreases ss@.len() - i,
        {
            let ghost before = out@;
            proof {
                assert(sv.take(i + 1).drop_last() =~= sv.take(i as int));
                assert(sv.take(i + 1).last() == sv[i as int]);
            }
            match Self::parse_expression(&ss[i]) {
                Ok(p) => {
                    out.push(p);
                    proof {
                        lemma_prog_views(out@);
                        lemma_prog_views(before);
                        assert(prog_views(out@) =~= prog_views(before).push(out@[i as int]@));
                    }
                },
                Err(x) => {
                    proof {
                        assert(lower_stmts(sv.take(i + 1)) == Err::<Seq<Prog>, PErr>(x@));
                        lemma_lower_stmts_prefix_err(sv, i + 1);
                        assert(sv.take(sv.len() as int) =~= sv);
                    }
                    return Err(x);
                },
            }
            i = i + 1;
        }
        proof {
            assert(sv.take(i as int) =~= sv);
        }
        Ok(out)
    }

    /// The program tree of a statement (a list of expressions).
    fn parse_expression(s: &Vec<ExpressionAST>) -> (r: Result<ProgramAST, ParsingError>)
        ensures
            lowered(r) == lower_stmt(expr_views(s@)),
        decreases s,
    {
        let ghost ev = expr_views(s@);
        proof {
            lemma_expr_views(s@);
        }
        if s.len() == 0 {
            return Err(ParsingError::UnexpectedEmptyExpression);
        }
        let first = Self::lower_expression(&s[0]);
        let mut prev = match first {
            Ok(p) => p,
            Err(x) => {
                proof {
                    lemma_lower_stmt_prefix_err(ev, 1);
                    assert(ev.take(1).drop_last() =~= Seq::<Expr>::empty());
                    assert(ev.take(1)[0] == ev[0]);
                    assert(ev.take(ev.len() as int) =~= ev);
                }
                return Err(x);
            },
        };
        proof {
            assert(ev.take(1)[0] == ev[0]);
        }
        let mut i: usize = 1;
        while i < s.len()
            invariant
                1 <= i <= s@.len(),
                ev == expr_views(s@),
                ev.len() == s@.len(),
                forall|k: int| 0 <= k < s@.len() ==> #[trigger] ev[k] == s@[k]@,
                lower_stmt(ev.take(i as int)) == Ok::<Prog, PErr>(prev@),
            decreases s@.len() - i,
        {
            proof {
                assert(ev.take(i + 1).drop_last() =~= ev.take(i as int));
                assert(ev.take(i + 1).last() == ev[i as int]);
            }
            let cur = match Self::lower_expression(&s[i]) {
                Ok(c) => c,
                Err(x) => {
                    proof {
                        lemma_lower_stmt_prefix_err(ev, i + 1);
                        assert(ev.take(ev.len() as int) =~= ev);
                    }
                    return Err(x);
                },
            };
            let back = match &cur {
                ProgramAST::FunctionRef { token } => starts_with_backtick(token.as_str()),
                _ => false,
            };
            let ghost p0 = prev@;
            let ghost c0 = cur@;
            if back {
                prev = ProgramAST::FunctionCall { function: Box::new(cur), arg: Box::new(prev) };
            } else {
                prev = ProgramAST::FunctionCall { function: Box::new(prev), arg: Box::new(cur) };
            }
            assert(prev@ == combine(p0, c0));
            assert(lower_expr(ev[i as int]) == Ok::<Prog, PErr>(c0));
            i = i + 1;
        }
        proof {
            assert(ev.take(i as int) =~= ev);
        }
        Ok(prev)
    }

    /// Lowers an expression tree to the program tree of a whole input.
    pub fn parse(ast: ExpressionAST) -> (r: Result<Self, ParsingError>)
        ensures
            lowered(r) == lower_top(ast@),
    {
        match ast {
            ExpressionAST::SubExpression(tle) => Err(ParsingError::UnexpectedTopLevelExpression(tle)),
            ExpressionAST::CodeBlock(args, cb) => {
                match Self::lower_statements(&cb) {
                    Ok(b) => Ok(ProgramAST::FunctionDef(FunctionDef { arg_tokens: args, block: b })),
                    Err(x) => Err(x),
                }
            },
            ExpressionAST::Terminal(terminal) => match terminal {
                Token::Token(w) => Ok(Self::lower_word_exec(&w)),
                _ => Err(ParsingError::UnexpectedNonFunctionToken(terminal)),
            },
        }
    }
}

/// Whether a word begins with a back-tick.
pub fn starts_with_backtick(w: &str) -> (r: bool)
    ensures
        r == has_backtick(w@),
{
    w.unicode_len() > 0 && w.get_char(0) == '`'
}

/// A failure in a prefix of a statement is the failure of the whole statement.
proof fn lemma_lower_stmt_prefix_err(s: Seq<Expr>, k: int)
    requires
        1 <= k <= s.len(),
        lower_stmt(s.take(k)) is Err,
    ensures
        lower_stmt(s) == lower_stmt(s.take(k)),
    decreases s.len() - k,
{
    if k < s.len() {
        assert(s.take(k + 1).drop_last() =~= s.take(k));
        lemma_lower_stmt_prefix_err(s, k + 1);
    } else {
        assert(s.take(k) =~= s);
    }
}

/// A failure in a prefix of a statement list is the failure of the whole list.
proof fn lemma_lower_stmts_prefix_err(s: Seq<Seq<Expr>>, k: int)
    requires
        0 <= k <= s.len(),
        lower_stmts(s.take(k)) is Err,
    ensures
        lower_stmts(s) == lower_stmts(s.take(k)),
    decreases s.len() - k,
{
    if k < s.len() {
        assert(s.take(k + 1).drop_last() =~= s.take(k));
        lemma_lower_stmts_prefix_err(s, k + 1);
    } else {
        assert(s.take(k) =~= s);
    }
}

/// A word with its leading back-tick, if any, removed.
pub open spec fn strip_backtick(w: Seq<char>) -> Seq<char> {
    if has_backtick(w) {
        w.drop_first()
    } else {
        w
    }
}

/// The tree with one leading back-tick stripped from every reference.
pub open spec fn finalized(p: Prog) -> Prog
    decreases p, 0nat,
{
    match p {
        Prog::Call(f, a) => Prog::Call(Box::new(finalized(*f)), Box::new(finalized(*a))),
        Prog::Lambda(ps, b) => Prog::Lambda(ps, finalized_seq(b)),
        Prog::Ref(w) => Prog::Ref(strip_backtick(w)),
        Prog::Num(n) => Prog::Num(n),
    }
}

pub open spec fn finalized_seq(s: Seq<Prog>) -> Seq<Prog>
    decreases s, s.len(),
{
    if s.len() == 0 {
        Seq::empty()
    } else {
        finalized_seq(s.drop_last()).push(finalized(s.last()))
    }
}

pub proof fn lemma_finalized_seq(s: Seq<Prog>)
    ensures
        finalized_seq(s).len() == s.len(),
        forall|i: int| 0 <= i < s.len() ==> #[trigger] finalized_seq(s)[i] == finalized(s[i]),
    decreases s.len(),
{
    if s.len() > 0 {
        lemma_finalized_seq(s.drop_last());
    }
}

/// No reference in the tree begins with a back-tick.
pub open spec fn no_backtick(p: Prog) -> bool
    decreases p,
{
    match p {
        Prog::Call(f, a) => no_backtick(*f) && no_backtick(*a),
        Prog::Lambda(_, b) => forall|i: int| 0 <= i < b.len() ==> no_backtick(#[trigger] b[i]),
        Prog::Ref(w) => !has_backtick(w),
        Prog::Num(_) => true,
    }
}

/// No reference in the tree begins with two back-ticks.
pub open spec fn no_double_backtick(p: Prog) -> bool
    decreases p,
{
    match p {
        Prog::Call(f, a) => no_double_backtick(*f) && no_double_backtick(*a),
        Prog::Lambda(_, b) => forall|i: int|
            0 <= i < b.len() ==> no_double_backtick(#[trigger] b[i]),
        Prog::Ref(w) => !(has_backtick(w) && has_backtick(w.drop_first())),
        Prog::Num(_) => true,
    }
}

/// After finalization no reference begins with a back-tick (for trees in which
/// no reference begins with two of them: finalization strips only one).
pub proof fn lemma_finalized_has_no_backtick(p: Prog)
    requires
        no_double_backtick(p),
    ensures
        no_backtick(finalized(p)),
    decreases p,
{
    match p {
        Prog::Call(f, a) => {
            lemma_finalized_has_no_backtick(*f);
            lemma_finalized_has_no_backtick(*a);
        },
        Prog::Lambda(ps, b) => {
            lemma_finalized_seq(b);
            assert forall|i: int| 0 <= i < finalized_seq(b).len() implies no_backtick(
                #[trigger] finalized_seq(b)[i],
            ) by {
                lemma_finalized_has_no_backtick(b[i]);
            }
        },
        Prog::Ref(w) => {},
        Prog::Num(_) => {},
    }
}

impl ProgramAST {
    /// A copy of the tree.
    pub fn copy(&self) -> (r: ProgramAST)
        ensures
            r@ == self@,
        decreases self,
    {
        match self {
            ProgramAST::FunctionCall { function, arg } => ProgramAST::FunctionCall {
                function: Box::new(function.copy()),
                arg: Box::new(arg.copy()),
            },
            ProgramAST::FunctionDef(d) => {
                proof {
                    assert forall|k: int| 0 <= k < d.block@.len() implies decreases_to!(*self => #[trigger] d.block@[k]) by {
                        assert(decreases_to!(d.block => d.block[k]));
                        assert(decreases_to!(*d => d.block));
                        assert(decreases_to!(*self => *d));
                    }
                }
                let mut out: Vec<ProgramAST> = Vec::new();
                let mut i: usize = 0;
                while i < d.block.len()
                    invariant
                        forall|k: int| 0 <= k < d.block@.len() ==> decreases_to!(*self => #[trigger] d.block@[k]),
                        i <= d.block@.len(),
                        out@.len() == i,
                        forall|k: int| 0 <= k < i ==> #[trigger] out@[k]@ == d.block@[k]@,
                    decreases d.block@.len() - i,
                {
                    out.push(d.block[i].copy());
                    i = i + 1;
                }
                proof {
                    lemma_prog_views(out@);
                    lemma_prog_views(d.block@);
                    assert(prog_views(out@) =~= prog_views(d.block@));
                }
                ProgramAST::FunctionDef(FunctionDef { arg_tokens: copy_strings(&d.arg_tokens), block: out })
            },
            ProgramAST::FunctionRef { token } => ProgramAST::FunctionRef { token: token.clone() },
            ProgramAST::Value { value } => ProgramAST::Value { value: *value },
        }
    }

    /// A copy of the tree with one leading back-tick stripped from every reference.
    fn finalized_copy(&self) -> (r: ProgramAST)
        ensures
            r@ == finalized(self@),
        decreases self,
    {
        match self {
            ProgramAST::FunctionCall { function, arg } => ProgramAST::FunctionCall {
                function: Box::new(function.finalized_copy()),
                arg: Box::new(arg.finalized_copy()),
            },
            ProgramAST::FunctionDef(d) => {
                let ghost b = prog_views(d.block@);
                proof {
                    lemma_prog_views(d.block@);
                    lemma_finalized_seq(b);
                }
                proof {
                    assert forall|k: int| 0 <= k < d.block@.len() implies decreases_to!(*self => #[trigger] d.block@[k]) by {
                        assert(decreases_to!(d.block => d.block[k]));
                        assert(decreases_to!(*d => d.block));
                        assert(decreases_to!(*self => *d));
                    }
                }
                let mut out: Vec<ProgramAST> = Vec::new();
                let mut i: usize = 0;
                while i < d.block.len()
                    invariant
                        forall|k: int| 0 <= k < d.block@.len() ==> decreases_to!(*self => #[trigger] d.block@[k]),
                        i <= d.block@.len(),
                        b == prog_views(d.block@),
                        b.len() == d.block@.len(),
                        finalized_seq(b).len() == b.len(),
                        forall|k: int| 0 <= k < b.len() ==> #[trigger] b[k] == d.block@[k]@,
                        forall|k: int| 0 <= k < b.len() ==> #[trigger] finalized_seq(b)[k] == finalized(b[k]),
                        out@.len() == i,
                        forall|k: int| 0 <= k < i ==> #[trigger] out@[k]@ == finalized(d.block@[k]@),
                    decreases d.block@.len() - i,
                {
                    out.push(d.block[i].finalized_copy());
                    i = i + 1;
                }
                proof {
                    lemma_prog_views(out@);
                    assert(prog_views(out@) =~= finalized_seq(b));
                }
                ProgramAST::FunctionDef(FunctionDef { arg_tokens: copy_strings(&d.arg_tokens), block: out })
            },
            ProgramAST::FunctionRef { token } => {
                if starts_with_backtick(token.as_str()) {
                    let n = token.as_str().unicode_len();
                    let t = token.as_str().substring_char(1, n).to_owned();
                    proof {
                        assert(t@ =~= token@.drop_first());
                    }
                    ProgramAST::FunctionRef { token: t }
                } else {
                    ProgramAST::FunctionRef { token: token.clone() }
                }
            },
            ProgramAST::Value { value } => ProgramAST::Value { value: *value },
        }
    }

    /// Strips one leading back-tick from every reference in the tree.
    pub fn finalize(&mut self)
        ensures
            final(self)@ == finalized(old(self)@),
    {
        let f = self.finalized_copy();
        *self = f;
    }
}

/// Two lowering results agree once finalized.
pub open spec fn same_after_finalize(a: Result<Prog, PErr>, b: Result<Prog, PErr>) -> bool {
    match (a, b) {
        (Ok(x), Ok(y)) => finalized(x) == finalized(y),
        (Err(x), Err(y)) => x == y,
        _ => false,
    }
}

/// Back-tick reversal: the statement `e `f` lowers, once finalized, to the
/// same tree as `f e`, for a word `f` that is no numeral and has no back-tick
/// of its own, and an `e` that is no back-tick reference itself.
pub proof fn lemma_backtick_reverses(e: Expr, f: Seq<char>)
    requires
        parse_num(f) is None,
        !has_backtick(f),
        !(lower_expr(e) matches Ok(Prog::Ref(n)) && has_backtick(n)),
    ensures
        same_after_finalize(
            lower_stmt(seq![e, Expr::Atom(Tok::Word(seq!['`'] + f))]),
            lower_stmt(seq![Expr::Atom(Tok::Word(f)), e]),
        ),
{
    let bf = seq!['`'] + f;
    let l = seq![e, Expr::Atom(Tok::Word(bf))];
    let r = seq![Expr::Atom(Tok::Word(f)), e];
    assert(l.drop_last() =~= seq![e]);
    assert(r.drop_last() =~= seq![Expr::Atom(Tok::Word(f))]);
    assert(numeral_digits(bf) == bf);
    assert(!is_digit(bf[0]));
    assert(parse_num(bf) is None);
    assert(has_backtick(bf));
    assert(bf.drop_first() =~= f);
    assert(lower_stmt(seq![e]) == lower_expr(e));
    assert(lower_expr(Expr::Atom(Tok::Word(bf))) == Ok::<Prog, PErr>(Prog::Ref(bf)));
    assert(lower_expr(Expr::Atom(Tok::Word(f))) == Ok::<Prog, PErr>(Prog::Ref(f)));
    assert(lower_stmt(seq![Expr::Atom(Tok::Word(f))]) == Ok::<Prog, PErr>(Prog::Ref(f)));
    assert(l.last() == Expr::Atom(Tok::Word(bf)));
    assert(r.last() == e);
    assert(strip_backtick(bf) == f);
    assert(strip_backtick(f) == f);
    assert(finalized(Prog::Ref(bf)) == Prog::Ref(f));
    assert(finalized(Prog::Ref(f)) == Prog::Ref(f));
    match lower_expr(e) {
        Ok(p) => {
            assert(combine(p, Prog::Ref(bf)) == Prog::Call(Box::new(Prog::Ref(bf)), Box::new(p)));
            assert(combine(Prog::Ref(f), p) == Prog::Call(Box::new(Prog::Ref(f)), Box::new(p)));
            assert(lower_stmt(l) == Ok::<Prog, PErr>(combine(p, Prog::Ref(bf))));
            assert(lower_stmt(r) == Ok::<Prog, PErr>(combine(Prog::Ref(f), p)));
            assert(finalized(Prog::Call(Box::new(Prog::Ref(bf)), Box::new(p))) == Prog::Call(
                Box::new(finalized(Prog::Ref(bf))),
                Box::new(finalized(p)),
            ));
            assert(finalized(Prog::Call(Box::new(Prog::Ref(f)), Box::new(p))) == Prog::Call(
                Box::new(finalized(Prog::Ref(f))),
                Box::new(finalized(p)),
            ));
        },
        Err(x) => {
            assert(lower_stmt(l) == Err::<Prog, PErr>(x));
            assert(lower_stmt(r) == Err::<Prog, PErr>(x));
        },
    }
}

/// Group flattening: a statement made of one parenthesised group lowers to
/// the same tree as the group's contents.
pub proof fn lemma_group_flattens(cs: Seq<Expr>)
    ensures
        lower_stmt(seq![Expr::Group(cs)]) == lower_stmt(cs),
{
    assert(seq![Expr::Group(cs)][0] == Expr::Group(cs));
    assert(lower_expr(Expr::Group(cs)) == lower_stmt(cs));
}

/// A statement of the expression tree: not a lone group.
pub open spec fn wf_stmt(s: Seq<Expr>) -> bool
    decreases s, 1nat,
{
    &&& !(s.len() == 1 && s[0] is Group)
    &&& forall|j: int| 0 <= j < s.len() ==> wf_expr(#[trigger] s[j])
}

/// The shape the expression parser produces: groups never of one element,
/// statements never a lone group, atoms always words.
pub open spec fn wf_expr(e: Expr) -> bool
    decreases e, 0nat,
{
    match e {
        Expr::Group(cs) => cs.len() != 1 && forall|i: int| 0 <= i < cs.len() ==> wf_expr(#[trigger] cs[i]),
        Expr::Block(_, ss) => forall|i: int| 0 <= i < ss.len() ==> wf_stmt(#[trigger] ss[i]),
        Expr::Atom(t) => t is Word,
    }
}

/// Whether a word is the parameter arrow `=>`.
fn is_arrow(t: &String) -> (r: bool)
    ensures
        r == (t@ == "=>"@),
{
    proof {
        reveal_strlit("=>");
    }
    let s = t.as_str();
    let r = s.unicode_len() == 2 && s.get_char(0) == '=' && s.get_char(1) == '>';
    proof {
        if r {
            assert(t@ =~= "=>"@);
        }
    }
    r
}

/// A finished statement: a lone group stands for its elements.
pub open spec fn flat(cur: Seq<Expr>) -> Seq<Expr> {
    if cur.len() == 1 && cur[0] is Group {
        cur[0]->Group_0
    } else {
        cur
    }
}

/// A finished sequence: a single expression stands for itself, anything
/// else is a group.
pub open spec fn finish(acc: Seq<Expr>) -> Expr {
    if acc.len() == 1 {
        acc[0]
    } else {
        Expr::Group(acc)
    }
}

/// The stop tokens of the parameter lookahead.
pub open spec fn block_edges() -> Seq<Tok> {
    seq![Tok::RBrace, Tok::LBrace]
}

/// The outcome of parsing from a position: the tree or the position of the
/// error, and the position after what was read.
pub type ParseOutcome = (Result<Expr, int>, int);

/// Parses a sequence of expressions from `pos`, after the expressions `acc`
/// already read. It ends at the end of input, at `)` or `}` (read), or at
/// `;` (not read), which is an error inside parentheses (`can_end` false).
pub open spec fn parse_seq(t: Seq<Tok>, pos: int, can_end: bool, acc: Seq<Expr>) -> ParseOutcome
    decreases t.len() - pos, 3nat,
{
    if pos < 0 || pos >= t.len() {
        (Ok(finish(acc)), pos)
    } else {
        match t[pos] {
            Tok::Word(w) => parse_seq(t, pos + 1, can_end, acc.push(Expr::Atom(Tok::Word(w)))),
            Tok::LParen => match parse_seq(t, pos + 1, false, Seq::empty()) {
                (Ok(e), p) => if pos < p <= t.len() {
                    parse_seq(t, p, can_end, acc.push(e))
                } else {
                    (Err(p), p)
                },
                (Err(x), p) => (Err(x), p),
            },
            Tok::RParen => (Ok(finish(acc)), pos + 1),
            Tok::Semi => if can_end {
                (Ok(finish(acc)), pos)
            } else {
                (Err(pos), pos)
            },
            Tok::LBrace => match parse_block_at(t, pos + 1) {
                (Ok(e), p) => if pos < p <= t.len() {
                    parse_seq(t, p, can_end, acc.push(e))
                } else {
                    (Err(p), p)
                },
                (Err(x), p) => (Err(x), p),
            },
            Tok::RBrace => (Ok(finish(acc)), pos + 1),
        }
    }
}

/// Parses a block whose `{` ends just before `b`: parameters up to `=>`
/// when `=>` comes before the next brace, then the statements.
pub open spec fn parse_block_at(t: Seq<Tok>, b: int) -> ParseOutcome
    decreases t.len() - b + 1, 2nat,
{
    if b < 0 || b > t.len() {
        (Err(b), b)
    } else if reaches_before(t, b, block_edges(), Tok::Word("=>"@)) {
        parse_params(t, b, Seq::empty())
    } else {
        parse_stmts(t, b, Seq::empty(), Seq::empty(), Seq::empty())
    }
}

/// Reads parameter names up to `=>`.
pub open spec fn parse_params(t: Seq<Tok>, q: int, args: Seq<Seq<char>>) -> ParseOutcome
    decreases t.len() - q + 1, 1nat,
{
    if q < 0 || q > t.len() {
        (Err(q), q)
    } else if q == t.len() {
        parse_stmts(t, q, args, Seq::empty(), Seq::empty())
    } else {
        match t[q] {
            Tok::Word(w) => if w == "=>"@ {
                parse_stmts(t, q + 1, args, Seq::empty(), Seq::empty())
            } else {
                parse_params(t, q + 1, args.push(w))
            },
            _ => (Err(q + 1), q + 1),
        }
    }
}

/// Reads the statements of a block up to `}`: `stmts` are the statements
/// finished so far, `cur` the expressions of the current one.
pub open spec fn parse_stmts(
    t: Seq<Tok>,
    q: int,
    args: Seq<Seq<char>>,
    stmts: Seq<Seq<Expr>>,
    cur: Seq<Expr>,
) -> ParseOutcome
    decreases t.len() - q + 1, 0nat,
{
    let done = if cur.len() > 0 {
        stmts.push(flat(cur))
    } else {
        stmts
    };
    if q < 0 || q > t.len() {
        (Err(q), q)
    } else if q == t.len() {
        (Ok(Expr::Block(args, done)), q)
    } else {
        match t[q] {
            Tok::RBrace => (Ok(Expr::Block(args, done)), q + 1),
            Tok::Semi => parse_stmts(t, q + 1, args, stmts.push(flat(cur)), Seq::empty()),
            _ => match parse_seq(t, q, true, Seq::empty()) {
                (Ok(e), p) => if q < p <= t.len() {
                    parse_stmts(t, p, args, stmts, cur.push(e))
                } else {
                    (Err(p), p)
                },
                (Err(x), p) => (Err(x), p),
            },
        }
    }
}

/// What parsing from a tokenizer position gives.
pub open spec fn parsed(o: ParseOutcome, r: Result<ExpressionAST, ExpressionTreeParsingError>, end: int) -> bool {
    match r {
        Ok(e) => o == (Ok::<Expr, int>(e@), end),
        Err(x) => o.0 == Err::<Expr, int>(x.0 as int),
    }
}

/// A finished statement: a lone group stands for its elements.
fn flatten(cur: Vec<ExpressionAST>) -> (r: Vec<ExpressionAST>)
    requires
        forall|k: int| 0 <= k < cur@.len() ==> wf_expr(#[trigger] cur@[k]@),
    ensures
        wf_stmt(expr_views(r@)),
        expr_views(r@) == flat(expr_views(cur@)),
{
    let mut cur = cur;
    let ghost cv = expr_views(cur@);
    proof {
        lemma_expr_views(cur@);
    }
    if cur.len() == 1 {
        let x = cur.pop().unwrap();
        match x {
            ExpressionAST::SubExpression(cs) => {
                proof {
                    lemma_expr_views(cs@);
                    assert(wf_expr(x@));
                    assert(cv[0] == x@);
                }
                return cs;
            },
            other => {
                let r = vec![other];
                proof {
                    lemma_expr_views(r@);
                    assert(cv[0] == other@);
                    assert(expr_views(r@) =~= cv);
                }
                return r;
            },
        }
    }
    cur
}

impl ExpressionAST {
    /// Parses the tokens from the cursor into an expression tree, as
    /// `parse_seq` says.
    pub fn parse(tokenizer: Tokenizer) -> (r: Result<Self, ExpressionTreeParsingError>)
        requires
            tokenizer.wf(),
        ensures
            r matches Ok(e) ==> wf_expr(e@),
            match r {
                Ok(e) => parse_seq(tokenizer.tokens(), tokenizer.cursor() as int, true, Seq::empty()).0
                    == Ok::<Expr, int>(e@),
                Err(x) => parse_seq(tokenizer.tokens(), tokenizer.cursor() as int, true, Seq::empty()).0
                    == Err::<Expr, int>(x.0 as int),
            },
    {
        let mut tokenizer = tokenizer;
        Self::parse_in(&mut tokenizer, true)
    }

    fn parse_in(tokenizer: &mut Tokenizer, can_end: bool) -> (r: Result<Self, ExpressionTreeParsingError>)
        requires
            old(tokenizer).wf(),
        ensures
            final(tokenizer).wf(),
            final(tokenizer).tokens() == old(tokenizer).tokens(),
            old(tokenizer).cursor() <= final(tokenizer).cursor(),
            final(tokenizer).cursor() <= final(tokenizer).tokens().len(),
            r is Ok && old(tokenizer).cursor() < old(tokenizer).tokens().len() && old(tokenizer).tokens()[old(tokenizer).cursor() as int] != Tok::Semi ==> final(tokenizer).cursor()
                > old(tokenizer).cursor(),
            r matches Ok(e) ==> wf_expr(e@),
            parsed(
                parse_seq(old(tokenizer).tokens(), old(tokenizer).cursor() as int, can_end, Seq::empty()),
                r,
                final(tokenizer).cursor() as int,
            ),
        decreases old(tokenizer).tokens().len() - old(tokenizer).cursor(), 1nat,
    {
        let ghost start = tokenizer.cursor();
        let ghost all = tokenizer.tokens();
        proof {
            tokenizer.lemma_cursor_in_range();
            lemma_expr_views(Seq::<ExpressionAST>::empty());
        }
        let mut tokens: Vec<ExpressionAST> = Vec::new();
        loop
            invariant_except_break
                parse_seq(all, start as int, can_end, Seq::empty()) == parse_seq(
                    all,
                    tokenizer.cursor() as int,
                    can_end,
                    expr_views(tokens@),
                ),
            invariant
                tokenizer.wf(),
                tokenizer.tokens() == all,
                all == old(tokenizer).tokens(),
                start == old(tokenizer).cursor(),
                start <= tokenizer.cursor() <= all.len(),
                forall|k: int| 0 <= k < tokens@.len() ==> wf_expr(#[trigger] tokens@[k]@),
            ensures
                start < all.len() && all[start as int] != Tok::Semi ==> tokenizer.cursor() > start,
                tokenizer.cursor() <= all.len(),
                forall|k: int| 0 <= k < tokens@.len() ==> wf_expr(#[trigger] tokens@[k]@),
                parse_seq(all, start as int, can_end, Seq::empty()) == (Ok::<Expr, int>(finish(expr_views(tokens@))), tokenizer.cursor() as int),
            decreases all.len() - tokenizer.cursor(),
        {
            let ghost c0 = tokenizer.cursor() as int;
            let ghost acc = expr_views(tokens@);
            let ghost before = tokens@;
            match tokenizer.next() {
                None => break,
                Some(token) => match token {
                    Token::Token(t) => {
                        let ghost w = t@;
                        tokens.push(ExpressionAST::Terminal(Token::Token(t)));
                        proof {
                            assert(all[c0] == Tok::Word(w));
                            assert(tokens@.drop_last() =~= before);
                            assert(tokens@.last()@ == Expr::Atom(Tok::Word(w)));
                            assert(expr_views(tokens@) == acc.push(Expr::Atom(Tok::Word(w))));
                        }
                    },
                    Token::OpeningBracket => match Self::parse_in(tokenizer, false) {
                        Ok(e) => {
                            let ghost ev = e@;
                            tokens.push(e);
                            proof {
                                assert(all[c0] == Tok::LParen);
                                assert(tokens@.drop_last() =~= before);
                                assert(expr_views(tokens@) == acc.push(ev));
                            }
                        },
                        Err(x) => return Err(x),
                    },
                    Token::ClosingBracket => break,
                    Token::EndStatement => {
                        tokenizer.back();
                        if !can_end {
                            return Err(ExpressionTreeParsingError(tokenizer.pos()));
                        }
                        break;
                    },
                    Token::OpeningCodeBlock => match Self::parse_block(tokenizer) {
                        Ok(e) => {
                            let ghost ev = e@;
                            tokens.push(e);
                            proof {
                                assert(all[c0] == Tok::LBrace);
                                assert(tokens@.drop_last() =~= before);
                                assert(expr_views(tokens@) == acc.push(ev));
                            }
                        },
                        Err(x) => return Err(x),
                    },
                    Token::ClosingCodeBlock => break,
                },
            }
        }
        proof {
            lemma_expr_views(tokens@);
        }
        if tokens.len() == 1 {
            let e = tokens.pop().unwrap();
            Ok(e)
        } else {
            Ok(ExpressionAST::SubExpression(tokens))
        }
    }

    /// Parses a braced block whose `{` has just been read.
    fn parse_block(tokenizer: &mut Tokenizer) -> (r: Result<Self, ExpressionTreeParsingError>)
        requires
            old(tokenizer).wf(),
            old(tokenizer).cursor() >= 1,
        ensures
            final(tokenizer).wf(),
            final(tokenizer).tokens() == old(tokenizer).tokens(),
            old(tokenizer).cursor() <= final(tokenizer).cursor(),
            final(tokenizer).cursor() <= final(tokenizer).tokens().len(),
            r matches Ok(e) ==> wf_expr(e@),
            parsed(
                parse_block_at(old(tokenizer).tokens(), old(tokenizer).cursor() as int),
                r,
                final(tokenizer).cursor() as int,
            ),
        decreases old(tokenizer).tokens().len() - old(tokenizer).cursor() + 1, 0nat,
    {
        let ghost start = tokenizer.cursor();
        let ghost all = tokenizer.tokens();
        proof {
            tokenizer.lemma_cursor_in_range();
            lemma_strs(Seq::<String>::empty());
            lemma_stmt_views(Seq::<Vec<ExpressionAST>>::empty());
            lemma_expr_views(Seq::<ExpressionAST>::empty());
            assert(strs(Seq::<String>::empty()) =~= Seq::<Seq<char>>::empty());
        }
        let mut args: Vec<String> = Vec::new();
        let arrow = Token::Token(String::from_str("=>"));
        let until = vec![Token::ClosingCodeBlock, Token::OpeningCodeBlock];
        proof {
            assert(toks(until@) =~= block_edges());
        }
        let has_params = tokenizer.lookahead_until(until.as_slice(), &arrow);
        let mut stmts: Vec<Vec<ExpressionAST>> = Vec::new();
        let mut cur: Vec<ExpressionAST> = Vec::new();
        if has_params {
            loop
                invariant_except_break
                    parse_block_at(all, start as int) == parse_params(
                        all,
                        tokenizer.cursor() as int,
                        strs(args@),
                    ),
                invariant
                    tokenizer.wf(),
                    tokenizer.tokens() == all,
                    start <= tokenizer.cursor() <= all.len(),
                    all == old(tokenizer).tokens(),
                    start == old(tokenizer).cursor(),
                    stmts@.len() == 0,
                    cur@.len() == 0,
                ensures
                    start <= tokenizer.cursor() <= all.len(),
                    parse_block_at(all, start as int) == parse_stmts(
                        all,
                        tokenizer.cursor() as int,
                        strs(args@),
                        Seq::empty(),
                        Seq::empty(),
                    ),
                decreases all.len() - tokenizer.cursor(),
            {
                let ghost q = tokenizer.cursor() as int;
                let ghost a0 = args@;
                match tokenizer.next() {
                    None => break,
                    Some(token) => match token {
                        Token::Token(t) => {
                            if is_arrow(&t) {
                                break;
                            }
                            args.push(t);
                            proof {
                                lemma_strs(args@);
                                lemma_strs(a0);
                                assert(strs(args@) =~= strs(a0).push(all[q]->Word_0));
                            }
                        },
                        _ => return Err(ExpressionTreeParsingError(tokenizer.pos())),
                    },
                }
            }
        }
        proof {
            assert(stmt_views(stmts@) =~= Seq::<Seq<Expr>>::empty());
            assert(expr_views(cur@) =~= Seq::<Expr>::empty());
        }
        loop
            invariant_except_break
                parse_block_at(all, start as int) == parse_stmts(
                    all,
                    tokenizer.cursor() as int,
                    strs(args@),
                    stmt_views(stmts@),
                    expr_views(cur@),
                ),
            invariant
                tokenizer.wf(),
                tokenizer.tokens() == all,
                all == old(tokenizer).tokens(),
                start == old(tokenizer).cursor(),
                start <= tokenizer.cursor() <= all.len(),
                forall|k: int| 0 <= k < cur@.len() ==> wf_expr(#[trigger] cur@[k]@),
                forall|k: int| 0 <= k < stmts@.len() ==> wf_stmt(expr_views(#[trigger] stmts@[k]@)),
            ensures
                start <= tokenizer.cursor() <= all.len(),
                forall|k: int| 0 <= k < cur@.len() ==> wf_expr(#[trigger] cur@[k]@),
                forall|k: int| 0 <= k < stmts@.len() ==> wf_stmt(expr_views(#[trigger] stmts@[k]@)),
                parse_block_at(all, start as int) == (Ok::<Expr, int>(Expr::Block(
                    strs(args@),
                    if expr_views(cur@).len() > 0 {
                        stmt_views(stmts@).push(flat(expr_views(cur@)))
                    } else {
                        stmt_views(stmts@)
                    },
                )), tokenizer.cursor() as int),
            decreases all.len() - tokenizer.cursor(),
        {
            let ghost q = tokenizer.cursor() as int;
            let ghost s0 = stmts@;
            let ghost c0 = cur@;
            proof {
                lemma_expr_views(cur@);
            }
            match tokenizer.next() {
                None => break,
                Some(token) => match token {
                    Token::ClosingCodeBlock => break,
                    Token::EndStatement => {
                        let done = cur;
                        cur = Vec::new();
                        stmts.push(flatten(done));
                        proof {
                            assert(stmts@.drop_last() =~= s0);
                            assert(stmt_views(stmts@) =~= stmt_views(s0).push(flat(expr_views(c0))));
                            lemma_expr_views(cur@);
                            assert(expr_views(cur@) =~= Seq::<Expr>::empty());
                        }
                    },
                    _ => {
                        tokenizer.back();
                        match Self::parse_in(tokenizer, true) {
                            Ok(e) => {
                                cur.push(e);
                                proof {
                                    assert(cur@.drop_last() =~= c0);
                                }
                            },
                            Err(x) => return Err(x),
                        }
                    },
                },
            }
        }
        let ghost cv = expr_views(cur@);
        proof {
            lemma_expr_views(cur@);
        }
        if cur.len() > 0 {
            let ghost s0 = stmts@;
            stmts.push(flatten(cur));
            proof {
                assert(stmts@.drop_last() =~= s0);
            }
        }
        proof {
            lemma_stmt_views(stmts@);
        }
        Ok(ExpressionAST::CodeBlock(args, stmts))
    }
}

/// The decimal digits of `n`.
pub open spec fn decimal(n: nat) -> Seq<char>
    decreases n,
{
    if n < 10 {
        seq![digit_char(n)]
    } else {
        decimal(n / 10) + seq![digit_char(n % 10)]
    }
}

pub open spec fn digit_char(d: nat) -> char {
    if d == 0 { '0' } else if d == 1 { '1' } else if d == 2 { '2' } else if d == 3 { '3' }
    else if d == 4 { '4' } else if d == 5 { '5' } else if d == 6 { '6' } else if d == 7 { '7' }
    else if d == 8 { '8' } else { '9' }
}

/// The deepest indentation level printed; deeper levels print at this one.
pub const MAX_INDENT: usize = 0x3fff_ffff;

/// The indentation level of a subtree.
pub open spec fn deeper(ind: nat) -> nat {
    if ind < MAX_INDENT {
        ind + 1
    } else {
        ind
    }
}

/// `k` spaces.
pub open spec fn spaces(k: nat) -> Seq<char> {
    Seq::new(k, |i: int| ' ')
}

/// Words separated by single spaces.
pub open spec fn join_words(ws: Seq<Seq<char>>) -> Seq<char>
    decreases ws.len(),
{
    if ws.len() == 0 {
        Seq::empty()
    } else if ws.len() == 1 {
        ws[0]
    } else {
        join_words(ws.drop_last()) + " "@ + ws.last()
    }
}

/// The printed form of a program tree at an indentation level: calls as
/// `f(arg)`, function literals as `{ params =>` with one indented statement
/// per line, references as their name, numbers as `N(n)`.
pub open spec fn render(p: Prog, ind: nat) -> Seq<char>
    decreases p, 0nat,
{
    match p {
        Prog::Call(f, a) => render(*f, deeper(ind)) + "("@ + render(*a, deeper(ind)) + ")"@,
        Prog::Lambda(ps, b) => "{ "@ + join_words(ps) + " =>\n"@ + render_stmts(b, ind) + spaces(
            2 * ind,
        ) + "}"@,
        Prog::Ref(w) => w,
        Prog::Num(n) => "N("@ + decimal(n) + ")"@,
    }
}

/// The printed statements of a function literal at an indentation level.
pub open spec fn render_stmts(b: Seq<Prog>, ind: nat) -> Seq<char>
    decreases b, b.len(),
{
    if b.len() == 0 {
        Seq::empty()
    } else {
        render_stmts(b.drop_last(), ind) + spaces(2 * deeper(ind)) + render(b.last(), deeper(ind))
            + ";\n"@
    }
}

/// Appends the decimal digits of `n`.
pub(crate) fn push_decimal(out: &mut String, n: usize)
    ensures
        final(out)@ == old(out)@ + decimal(n as nat),
    decreases n,
{
    if n >= 10 {
        push_decimal(out, n / 10);
    }
    let d = n % 10;
    let s = if d == 0 { "0" } else if d == 1 { "1" } else if d == 2 { "2" } else if d == 3 { "3" }
    else if d == 4 { "4" } else if d == 5 { "5" } else if d == 6 { "6" } else if d == 7 { "7" }
    else if d == 8 { "8" } else { "9" };
    proof {
        reveal_strlit("0"); reveal_strlit("1"); reveal_strlit("2"); reveal_strlit("3");
        reveal_strlit("4"); reveal_strlit("5"); reveal_strlit("6"); reveal_strlit("7");
        reveal_strlit("8"); reveal_strlit("9");
        assert(s@ =~= seq![digit_char(d as nat)]);
    }
    out.append(s);
    proof {
        if n >= 10 {
            assert(final(out)@ =~= old(out)@ + decimal(n as nat));
        } else {
            assert(final(out)@ =~= old(out)@ + decimal(n as nat));
        }
    }
}

/// Appends `k` spaces.
fn push_spaces(out: &mut String, k: usize)
    ensures
        final(out)@ == old(out)@ + spaces(k as nat),
{
    let ghost start = out@;
    let mut i: usize = 0;
    proof {
        reveal_strlit(" ");
        assert(start + spaces(0) =~= start);
    }
    while i < k
        invariant
            i <= k,
            out@ == start + spaces(i as nat),
        decreases k - i,
    {
        out.append(" ");
        i = i + 1;
        proof {
            reveal_strlit(" ");
            assert(out@ =~= start + spaces(i as nat));
        }
    }
}

/// Appends the words separated by single spaces.
fn push_words(out: &mut String, ws: &Vec<String>)
    ensures
        final(out)@ == old(out)@ + join_words(strs(ws@)),
{
    let ghost start = out@;
    let ghost w = strs(ws@);
    proof {
        lemma_strs(ws@);
        assert(w.take(0) =~= Seq::<Seq<char>>::empty());
        assert(start + join_words(w.take(0)) =~= start);
    }
    let mut i: usize = 0;
    while i < ws.len()
        invariant
            i <= ws@.len(),
            w == strs(ws@),
            w.len() == ws@.len(),
            forall|k: int| 0 <= k < ws@.len() ==> #[trigger] w[k] == ws@[k]@,
            out@ == start + join_words(w.take(i as int)),
        decreases ws@.len() - i,
    {
        proof {
            assert(w.take(i + 1).drop_last() =~= w.take(i as int));
            assert(w.take(i + 1).last() == w[i as int]);
        }
        if i > 0 {
            out.append(" ");
        }
        out.append(ws[i].as_str());
        i = i + 1;
        proof {
            if i == 1 {
                assert(w.take(1) =~= seq![w[0]]);
                assert(out@ =~= start + join_words(w.take(i as int)));
            } else {
                assert(out@ =~= start + join_words(w.take(i as int)));
            }
        }
    }
    proof {
        assert(w.take(i as int) =~= w);
    }
}

impl ProgramAST {
    fn print_ast_in(&self, out: &mut String, indentation: usize)
        requires
            indentation <= MAX_INDENT,
        ensures
            final(out)@ == old(out)@ + render(self@, indentation as nat),
        decreases self,
    {
        let next = if indentation < MAX_INDENT { indentation + 1 } else { indentation };
        match self {
            ProgramAST::FunctionCall { function, arg } => {
                function.print_ast_in(out, next);
                out.append("(");
                arg.print_ast_in(out, next);
                out.append(")");
                proof {
                    assert(final(out)@ =~= old(out)@ + render(self@, indentation as nat));
                }
            },
            ProgramAST::FunctionDef(def) => {
                let ghost start = out@;
                let ghost b = prog_views(def.block@);
                proof {
                    lemma_prog_views(def.block@);
                    assert forall|k: int| 0 <= k < def.block@.len() implies decreases_to!(*self => #[trigger] def.block@[k]) by {
                        assert(decreases_to!(def.block => def.block[k]));
                        assert(decreases_to!(*def => def.block));
                        assert(decreases_to!(*self => *def));
                    }
                }
                out.append("{ ");
                push_words(out, &def.arg_tokens);
                out.append(" =>\n");
                let ghost head = out@;
                proof {
                    assert(b.take(0) =~= Seq::<Prog>::empty());
                    assert(head + render_stmts(b.take(0), indentation as nat) =~= head);
                }
                let mut i: usize = 0;
                while i < def.block.len()
                    invariant
                        forall|k: int| 0 <= k < def.block@.len() ==> decreases_to!(*self => #[trigger] def.block@[k]),
                        i <= def.block@.len(),
                        b == prog_views(def.block@),
                        b.len() == def.block@.len(),
                        forall|k: int| 0 <= k < b.len() ==> #[trigger] b[k] == def.block@[k]@,
                        next == deeper(indentation as nat),
                        next <= MAX_INDENT,
                        out@ == head + render_stmts(b.take(i as int), indentation as nat),
                    decreases def.block@.len() - i,
                {
                    proof {
                        assert(b.take(i + 1).drop_last() =~= b.take(i as int));
                        assert(b.take(i + 1).last() == b[i as int]);
                    }
                    push_spaces(out, next * 2);
                    def.block[i].print_ast_in(out, next);
                    out.append(";\n");
                    i = i + 1;
                    proof {
                        assert(out@ =~= head + render_stmts(b.take(i as int), indentation as nat));
                    }
                }
                push_spaces(out, indentation * 2);
                out.append("}");
                proof {
                    assert(b.take(i as int) =~= b);
                    assert(final(out)@ =~= old(out)@ + render(self@, indentation as nat));
                }
            },
            ProgramAST::FunctionRef { token } => {
                out.append(token.as_str());
            },
            ProgramAST::Value { value } => {
                out.append("N(");
                push_decimal(out, *value);
                out.append(")");
                proof {
                    assert(final(out)@ =~= old(out)@ + render(self@, indentation as nat));
                }
            },
        }
    }

    /// The printed form of the tree.
    pub fn print_ast(&self) -> (r: String)
        ensures
            r@ == render(self@, 0),
    {
        let mut out = String::new();
        self.print_ast_in(&mut out, 0);
        proof {
            assert(out@ =~= render(self@, 0));
        }
        out
    }
}

} // verus!
