use vstd::prelude::*;
use crate::ast_parser::{
    Expr, Prog, ProgramAST, lemma_prog_views, lemma_strs, prog_views, push_decimal, strs, decimal, digit_char, digits_value, finalized, finalized_seq, lemma_finalized_seq, finish, flat,
    has_backtick, is_digit, lower_expr, lower_stmt, lower_stmts, lower_top,
    numeral_digits, parse_block_at, parse_num, parse_params, parse_seq, parse_stmts,
};
use crate::repl::program_of;
use crate::tokenizer::{
    Tok, Token, is_delimiter, is_space, lex, lex_from, reaches_before, syntax_ok, toks,
};

verus! {

/// A word that prints and reads back as itself: not empty, and free of
/// delimiters and spaces.
pub open spec fn printable_word(w: Seq<char>) -> bool {
    w.len() > 0 && forall|i: int| 0 <= i < w.len() ==> !is_delimiter(#[trigger] w[i]) && !is_space(w[i])
}

/// A program tree in the form the parser produces: references are words
/// that are no numerals and carry no back-tick, numbers fit a machine word,
/// function literals have at least one statement and word parameters other
/// than `=>`.
pub open spec fn printable(p: Prog) -> bool
    decreases p,
{
    match p {
        Prog::Call(f, a) => printable(*f) && printable(*a),
        Prog::Lambda(ps, b) => {
            &&& b.len() > 0
            &&& forall|i: int| 0 <= i < ps.len() ==> printable_word(#[trigger] ps[i]) && ps[i] != "=>"@
            &&& forall|i: int| 0 <= i < b.len() ==> printable(#[trigger] b[i])
        },
        Prog::Ref(w) => printable_word(w) && parse_num(w) is None && !has_backtick(w),
        Prog::Num(n) => n <= usize::MAX,
    }
}

/// The tokens of a tree in argument position: calls in parentheses.
pub open spec fn arg_toks(p: Prog) -> Seq<Tok>
    decreases p, 0nat,
{
    match p {
        Prog::Call(f, a) => seq![Tok::LParen] + call_toks(*f) + arg_toks(*a) + seq![Tok::RParen],
        Prog::Lambda(ps, b) => seq![Tok::LBrace] + word_toks(ps) + seq![Tok::Word("=>"@)] + body_toks(b)
            + seq![Tok::RBrace],
        Prog::Ref(w) => seq![Tok::Word(w)],
        Prog::Num(n) => seq![Tok::Word(decimal(n))],
    }
}

/// The tokens of a tree in statement or function position: a call chain
/// without parentheses.
pub open spec fn call_toks(p: Prog) -> Seq<Tok>
    decreases p, 1nat,
{
    match p {
        Prog::Call(f, a) => call_toks(*f) + arg_toks(*a),
        _ => arg_toks(p),
    }
}

/// The tokens of statements, each followed by `;`.
pub open spec fn body_toks(b: Seq<Prog>) -> Seq<Tok>
    decreases b, 0nat,
{
    if b.len() == 0 {
        Seq::empty()
    } else {
        body_toks(b.drop_last()) + call_toks(b.last()) + seq![Tok::Semi]
    }
}

/// Words as tokens.
pub open spec fn word_toks(ps: Seq<Seq<char>>) -> Seq<Tok> {
    ps.map_values(|w: Seq<char>| Tok::Word(w))
}

/// The expression the parser reads from `arg_toks(p)`.
pub open spec fn arg_expr(p: Prog) -> Expr
    decreases p, 0nat,
{
    match p {
        Prog::Call(f, a) => Expr::Group(call_elems(*f).push(arg_expr(*a))),
        Prog::Lambda(ps, b) => Expr::Block(ps, body_elems(b)),
        Prog::Ref(w) => Expr::Atom(Tok::Word(w)),
        Prog::Num(n) => Expr::Atom(Tok::Word(decimal(n))),
    }
}

/// The expressions the parser reads from `call_toks(p)`.
pub open spec fn call_elems(p: Prog) -> Seq<Expr>
    decreases p, 1nat,
{
    match p {
        Prog::Call(f, a) => call_elems(*f).push(arg_expr(*a)),
        _ => seq![arg_expr(p)],
    }
}

/// The statements the parser reads from `body_toks(b)`.
pub open spec fn body_elems(b: Seq<Prog>) -> Seq<Seq<Expr>>
    decreases b, 0nat,
{
    if b.len() == 0 {
        Seq::empty()
    } else {
        body_elems(b.drop_last()).push(call_elems(b.last()))
    }
}

proof fn lemma_digit_char(d: nat)
    requires
        d < 10,
    ensures
        is_digit(digit_char(d)),
        (digit_char(d) as u32) - ('0' as u32) == d,
        !is_delimiter(digit_char(d)),
        !is_space(digit_char(d)),
        digit_char(d) != '+',
        digit_char(d) != '`',
{
}

proof fn lemma_decimal_digits(n: nat)
    ensures
        decimal(n).len() >= 1,
        forall|i: int| 0 <= i < decimal(n).len() ==> is_digit(#[trigger] decimal(n)[i]) && !is_delimiter(decimal(n)[i])
            && !is_space(decimal(n)[i]) && decimal(n)[i] != '+' && decimal(n)[i] != '`',
        digits_value(decimal(n)) == n,
    decreases n,
{
    lemma_digit_char(n % 10);
    if n >= 10 {
        lemma_decimal_digits(n / 10);
        let s = decimal(n);
        assert(s.drop_last() =~= decimal(n / 10));
        assert(s.last() == digit_char(n % 10));
        vstd::arithmetic::div_mod::lemma_fundamental_div_mod(n as int, 10);
        assert(digits_value(s) == digits_value(decimal(n / 10)) * 10 + n % 10);
        assert(digits_value(decimal(n / 10)) == n / 10);
        assert((n / 10) * 10 + n % 10 == n);
        assert forall|i: int| 0 <= i < s.len() implies is_digit(#[trigger] s[i]) && !is_delimiter(s[i])
            && !is_space(s[i]) && s[i] != '+' && s[i] != '`' by {
            if i < s.len() - 1 {
                assert(s[i] == decimal(n / 10)[i]);
            }
        }
    } else {
        assert(decimal(n) =~= seq![digit_char(n)]);
        assert(decimal(n).drop_last() =~= Seq::<char>::empty());
        assert(digits_value(Seq::<char>::empty()) == 0);
        assert(decimal(n).last() == digit_char(n));
        assert(digits_value(decimal(n)) == 0 * 10 + ((digit_char(n) as u32) - ('0' as u32)) as nat);
    }
}

/// A number prints as a word that reads back as that number.
proof fn lemma_decimal_reads_back(n: nat)
    requires
        n <= usize::MAX,
    ensures
        parse_num(decimal(n)) == Some(n),
        printable_word(decimal(n)),
        !has_backtick(decimal(n)),
{
    lemma_decimal_digits(n);
    let d = decimal(n);
    assert(d[0] != '+');
    assert(numeral_digits(d) == d);
}

/// A printable tree has no back-tick to strip.
pub proof fn lemma_finalized_printable(p: Prog)
    requires
        printable(p),
    ensures
        finalized(p) == p,
    decreases p,
{
    match p {
        Prog::Call(f, a) => {
            lemma_finalized_printable(*f);
            lemma_finalized_printable(*a);
        },
        Prog::Lambda(ps, b) => {
            lemma_finalized_seq(b);
            assert forall|i: int| 0 <= i < b.len() implies #[trigger] finalized_seq(b)[i] == b[i] by {
                lemma_finalized_printable(b[i]);
            }
            assert(finalized_seq(b) =~= b);
        },
        _ => {},
    }
}

proof fn lemma_lower_call(c: Prog)
    requires
        printable(c),
    ensures
        lower_stmt(call_elems(c)) == Ok::<Prog, crate::ast_parser::PErr>(c),
        call_elems(c).len() >= 1,
        call_elems(c).len() == 1 ==> !(call_elems(c)[0] is Group),
    decreases c, 2nat,
{
    match c {
        Prog::Call(f, a) => {
            lemma_lower_call(*f);
            lemma_lower_arg(*a);
            let s = call_elems(*f).push(arg_expr(*a));
            assert(s.drop_last() =~= call_elems(*f));
            assert(s.last() == arg_expr(*a));
            assert(s.len() >= 2);
            assert(lower_stmt(s.drop_last()) == Ok::<Prog, crate::ast_parser::PErr>(*f));
            assert(lower_expr(s.last()) == Ok::<Prog, crate::ast_parser::PErr>(*a));
            assert(printable(*a));
            if let Prog::Ref(n) = *a {
                assert(!has_backtick(n));
            }
            assert(crate::ast_parser::combine(*f, *a) == c);
            assert(lower_stmt(s) == Ok::<Prog, crate::ast_parser::PErr>(c));
            assert(call_elems(c) == s);
        },
        _ => {
            lemma_lower_arg(c);
            assert(call_elems(c)[0] == arg_expr(c));
        },
    }
}

proof fn lemma_lower_arg(x: Prog)
    requires
        printable(x),
    ensures
        lower_expr(arg_expr(x)) == Ok::<Prog, crate::ast_parser::PErr>(x),
    decreases x, 1nat,
{
    match x {
        Prog::Call(f, a) => {
            lemma_lower_call(*f);
            lemma_lower_arg(*a);
            let s = call_elems(*f).push(arg_expr(*a));
            assert(s.drop_last() =~= call_elems(*f));
            assert(s.last() == arg_expr(*a));
            assert(lower_stmt(s) == Ok::<Prog, crate::ast_parser::PErr>(x));
        },
        Prog::Lambda(ps, b) => {
            lemma_lower_body(x, b.len() as int);
            assert(b.take(b.len() as int) =~= b);
        },
        Prog::Ref(w) => {},
        Prog::Num(n) => {
            lemma_decimal_reads_back(n);
        },
    }
}

proof fn lemma_lower_body(x: Prog, k: int)
    requires
        printable(x),
        x is Lambda,
        0 <= k <= x->Lambda_1.len(),
    ensures
        lower_stmts(body_elems(x->Lambda_1.take(k))) == Ok::<Seq<Prog>, crate::ast_parser::PErr>(x->Lambda_1.take(k)),
    decreases x, 0nat, k,
{
    let b = x->Lambda_1;
    if k == 0 {
        assert(b.take(0) =~= Seq::<Prog>::empty());
    } else {
        lemma_lower_body(x, k - 1);
        assert(b.take(k).drop_last() =~= b.take(k - 1));
        assert(b.take(k).last() == b[k - 1]);
        lemma_lower_call(b[k - 1]);
        let e = body_elems(b.take(k));
        assert(e.drop_last() == body_elems(b.take(k - 1)));
        assert(e.last() == call_elems(b[k - 1]));
        assert(b.take(k - 1).push(b[k - 1]) =~= b.take(k));
    }
}

/// `s` stands in `t` at `pos`.
pub open spec fn at(t: Seq<Tok>, pos: int, s: Seq<Tok>) -> bool {
    0 <= pos && pos + s.len() <= t.len() && t.subrange(pos, pos + s.len()) == s
}

proof fn lemma_at_split(t: Seq<Tok>, pos: int, a: Seq<Tok>, b: Seq<Tok>)
    requires
        at(t, pos, a + b),
    ensures
        at(t, pos, a),
        at(t, pos + a.len(), b),
{
    assert(t.subrange(pos, pos + a.len()) =~= (a + b).subrange(0, a.len() as int));
    assert((a + b).subrange(0, a.len() as int) =~= a);
    assert(t.subrange(pos + a.len(), pos + a.len() + b.len()) =~= (a + b).subrange(a.len() as int, (a + b).len() as int));
    assert((a + b).subrange(a.len() as int, (a + b).len() as int) =~= b);
}

proof fn lemma_at_one(t: Seq<Tok>, pos: int, x: Tok)
    requires
        at(t, pos, seq![x]),
    ensures
        t[pos] == x,
{
    assert(t.subrange(pos, pos + 1)[0] == t[pos]);
}

/// The first token of a call chain opens an expression.
proof fn lemma_call_toks_first(c: Prog)
    ensures
        call_toks(c).len() >= 1,
        call_toks(c)[0] is Word || call_toks(c)[0] is LParen || call_toks(c)[0] is LBrace,
    decreases c,
{
    match c {
        Prog::Call(f, a) => {
            lemma_call_toks_first(*f);
            assert(call_toks(c)[0] == call_toks(*f)[0]);
        },
        Prog::Lambda(ps, b) => {
            assert(arg_toks(c)[0] == Tok::LBrace);
        },
        _ => {},
    }
}

proof fn lemma_parse_call(t: Seq<Tok>, q: int, ce: bool, acc: Seq<Expr>, c: Prog)
    requires
        printable(c),
        at(t, q, call_toks(c)),
    ensures
        parse_seq(t, q, ce, acc) == parse_seq(t, q + call_toks(c).len(), ce, acc + call_elems(c)),
    decreases c, 3nat, 0int,
{
    match c {
        Prog::Call(f, a) => {
            lemma_at_split(t, q, call_toks(*f), arg_toks(*a));
            lemma_parse_call(t, q, ce, acc, *f);
            lemma_parse_arg(t, q + call_toks(*f).len(), ce, acc + call_elems(*f), *a);
            assert((acc + call_elems(*f)).push(arg_expr(*a)) =~= acc + call_elems(c));
        },
        _ => {
            lemma_parse_arg(t, q, ce, acc, c);
            assert(acc.push(arg_expr(c)) =~= acc + call_elems(c));
        },
    }
}

proof fn lemma_parse_arg(t: Seq<Tok>, pos: int, ce: bool, acc: Seq<Expr>, x: Prog)
    requires
        printable(x),
        at(t, pos, arg_toks(x)),
    ensures
        parse_seq(t, pos, ce, acc) == parse_seq(t, pos + arg_toks(x).len(), ce, acc.push(arg_expr(x))),
    decreases x, 2nat, 0int,
{
    match x {
        Prog::Call(f, a) => {
            let cf = call_toks(*f);
            let ta = arg_toks(*a);
            lemma_at_split(t, pos, seq![Tok::LParen] + cf + ta, seq![Tok::RParen]);
            lemma_at_split(t, pos, seq![Tok::LParen] + cf, ta);
            lemma_at_split(t, pos, seq![Tok::LParen], cf);
            lemma_at_one(t, pos, Tok::LParen);
            let end = pos + arg_toks(x).len();
            lemma_at_one(t, end - 1, Tok::RParen);
            lemma_parse_call(t, pos + 1, false, Seq::empty(), *f);
            lemma_parse_arg(t, pos + 1 + cf.len(), false, Seq::<Expr>::empty() + call_elems(*f), *a);
            lemma_lower_call(*f);
            let elems = (Seq::<Expr>::empty() + call_elems(*f)).push(arg_expr(*a));
            assert(elems =~= call_elems(*f).push(arg_expr(*a)));
            assert(pos + 1 + cf.len() + ta.len() == end - 1);
            assert(parse_seq(t, end - 1, false, elems) == (Ok::<Expr, int>(finish(elems)), end));
            assert(finish(elems) == arg_expr(x));
            assert(parse_seq(t, pos + 1, false, Seq::empty()) == (Ok::<Expr, int>(arg_expr(x)), end));
        },
        Prog::Lambda(ps, b) => {
            assert(arg_toks(x)[0] == Tok::LBrace);
            assert(seq![Tok::LBrace] + arg_toks(x).subrange(1, arg_toks(x).len() as int) =~= arg_toks(x));
            lemma_at_split(t, pos, seq![Tok::LBrace], arg_toks(x).subrange(1, arg_toks(x).len() as int));
            lemma_at_one(t, pos, Tok::LBrace);
            lemma_parse_block(t, pos + 1, x);
        },
        Prog::Ref(w) => {
            lemma_at_one(t, pos, Tok::Word(w));
        },
        Prog::Num(n) => {
            lemma_at_one(t, pos, Tok::Word(decimal(n)));
        },
    }
}

proof fn lemma_parse_block(t: Seq<Tok>, b: int, x: Prog)
    requires
        printable(x),
        x is Lambda,
        at(t, b - 1, arg_toks(x)),
    ensures
        parse_block_at(t, b) == (Ok::<Expr, int>(arg_expr(x)), b - 1 + arg_toks(x).len()),
    decreases x, 1nat, 0int,
{
    let ps = x->Lambda_0;
    let body = x->Lambda_1;
    let wt = word_toks(ps);
    let bt = body_toks(body);
    let arrow = Tok::Word("=>"@);
    assert(arg_toks(x) == seq![Tok::LBrace] + wt + seq![arrow] + bt + seq![Tok::RBrace]);
    lemma_at_split(t, b - 1, seq![Tok::LBrace] + wt + seq![arrow] + bt, seq![Tok::RBrace]);
    lemma_at_split(t, b - 1, seq![Tok::LBrace] + wt + seq![arrow], bt);
    lemma_at_split(t, b - 1, seq![Tok::LBrace] + wt, seq![arrow]);
    lemma_at_split(t, b - 1, seq![Tok::LBrace], wt);
    let j = b + wt.len();
    lemma_at_one(t, j, arrow);
    assert forall|k: int| 0 <= k < ps.len() implies t[b + k] == Tok::Word(#[trigger] ps[k]) by {
        assert(t.subrange(b, b + wt.len())[k] == t[b + k]);
    }
    // the arrow is reached before any brace
    assert forall|k: int| b <= k < j implies !crate::ast_parser::block_edges().contains(#[trigger] t[k]) by {
        assert(t[k] == Tok::Word(ps[k - b]));
        if crate::ast_parser::block_edges().contains(t[k]) {
            let i = choose|i: int| 0 <= i < 2 && crate::ast_parser::block_edges()[i] == t[k];
            assert(crate::ast_parser::block_edges()[0] == Tok::RBrace);
            assert(crate::ast_parser::block_edges()[1] == Tok::LBrace);
        }
    }
    assert(reaches_before(t, b, crate::ast_parser::block_edges(), arrow));
    lemma_parse_params(t, b, ps, ps.len() as int);
    assert(ps.take(ps.len() as int) =~= ps);
    assert(parse_params(t, j, ps) == parse_stmts(t, j + 1, ps, Seq::empty(), Seq::empty()));
    lemma_parse_stmts(t, j + 1, x, body.len() as int);
    assert(body.take(body.len() as int) =~= body);
    let q = j + 1 + bt.len();
    lemma_at_one(t, q, Tok::RBrace);
    assert(parse_stmts(t, q, ps, body_elems(body), Seq::empty()) == (Ok::<Expr, int>(Expr::Block(ps, body_elems(body))), q + 1));
}

proof fn lemma_parse_params(t: Seq<Tok>, b: int, ps: Seq<Seq<char>>, k: int)
    requires
        0 <= k <= ps.len(),
        0 <= b,
        b + ps.len() < t.len(),
        forall|i: int| 0 <= i < ps.len() ==> t[b + i] == Tok::Word(#[trigger] ps[i]) && ps[i] != "=>"@,
    ensures
        parse_params(t, b, Seq::empty()) == parse_params(t, b + k, ps.take(k)),
    decreases k,
{
    if k > 0 {
        lemma_parse_params(t, b, ps, k - 1);
        assert(t[b + k - 1] == Tok::Word(ps[k - 1]));
        assert(ps.take(k - 1).push(ps[k - 1]) =~= ps.take(k));
    } else {
        assert(ps.take(0) =~= Seq::<Seq<char>>::empty());
    }
}

proof fn lemma_parse_stmts(t: Seq<Tok>, q0: int, x: Prog, k: int)
    requires
        printable(x),
        x is Lambda,
        0 <= k <= x->Lambda_1.len(),
        at(t, q0, body_toks(x->Lambda_1)),
        q0 + body_toks(x->Lambda_1).len() < t.len(),
    ensures
        parse_stmts(t, q0, x->Lambda_0, Seq::empty(), Seq::empty()) == parse_stmts(
            t,
            q0 + body_toks(x->Lambda_1.take(k)).len(),
            x->Lambda_0,
            body_elems(x->Lambda_1.take(k)),
            Seq::empty(),
        ),
        at(t, q0, body_toks(x->Lambda_1.take(k))),
    decreases x, 0nat, k,
{
    let ps = x->Lambda_0;
    let body = x->Lambda_1;
    if k == 0 {
        assert(body.take(0) =~= Seq::<Prog>::empty());
        assert(t.subrange(q0, q0) =~= Seq::<Tok>::empty());
    } else {
        lemma_parse_stmts(t, q0, x, k - 1);
        let pre = body.take(k - 1);
        let cur = body.take(k);
        assert(cur.drop_last() =~= pre);
        assert(cur.last() == body[k - 1]);
        let s = body[k - 1];
        let ct = call_toks(s);
        assert(body_toks(cur) == body_toks(pre) + ct + seq![Tok::Semi]);
        // the prefix of statements stands in the body's tokens
        lemma_body_toks_prefix(body, k);
        lemma_at_prefix(t, q0, body_toks(cur), body_toks(body));
        lemma_at_split(t, q0, body_toks(pre) + ct, seq![Tok::Semi]);
        lemma_at_split(t, q0, body_toks(pre), ct);
        let q = q0 + body_toks(pre).len();
        lemma_at_one(t, q + ct.len(), Tok::Semi);
        lemma_call_toks_first(s);
        assert(t[q] == ct[0]) by {
            assert(t.subrange(q, q + ct.len())[0] == t[q]);
        }
        lemma_parse_call(t, q, true, Seq::empty(), s);
        lemma_lower_call(s);
        let elems = Seq::<Expr>::empty() + call_elems(s);
        assert(elems =~= call_elems(s));
        let p = q + ct.len();
        assert(parse_seq(t, p, true, elems) == (Ok::<Expr, int>(finish(elems)), p));
        assert(flat(seq![finish(elems)]) =~= call_elems(s)) by {
            if elems.len() == 1 {
                assert(finish(elems) == elems[0]);
            } else {
                assert(finish(elems) == Expr::Group(elems));
            }
        }
        assert(parse_stmts(t, q, ps, body_elems(pre), Seq::empty()) == parse_stmts(
            t,
            p,
            ps,
            body_elems(pre),
            seq![finish(elems)],
        ));
        assert(body_elems(cur) == body_elems(pre).push(call_elems(s)));
    }
}

proof fn lemma_body_toks_prefix(body: Seq<Prog>, k: int)
    requires
        0 <= k <= body.len(),
    ensures
        body_toks(body).len() >= body_toks(body.take(k)).len(),
        body_toks(body).subrange(0, body_toks(body.take(k)).len() as int) == body_toks(body.take(k)),
    decreases body.len() - k,
{
    if k == body.len() {
        assert(body.take(k) =~= body);
        assert(body_toks(body).subrange(0, body_toks(body).len() as int) =~= body_toks(body));
    } else {
        lemma_body_toks_prefix(body, k + 1);
        let a = body.take(k);
        let c = body.take(k + 1);
        assert(c.drop_last() =~= a);
        let bc = body_toks(c);
        assert(bc == body_toks(a) + call_toks(c.last()) + seq![Tok::Semi]);
        assert(body_toks(body).subrange(0, body_toks(a).len() as int) =~= bc.subrange(0, body_toks(a).len() as int));
        assert(bc.subrange(0, body_toks(a).len() as int) =~= body_toks(a));
    }
}

proof fn lemma_at_prefix(t: Seq<Tok>, pos: int, a: Seq<Tok>, s: Seq<Tok>)
    requires
        at(t, pos, s),
        a.len() <= s.len(),
        s.subrange(0, a.len() as int) == a,
    ensures
        at(t, pos, a),
{
    assert(t.subrange(pos, pos + a.len()) =~= s.subrange(0, a.len() as int));
}

/// The text of a token.
pub open spec fn tok_text(t: Tok) -> Seq<char> {
    match t {
        Tok::Word(w) => w,
        Tok::LParen => seq!['('],
        Tok::RParen => seq![')'],
        Tok::LBrace => seq!['{'],
        Tok::RBrace => seq!['}'],
        Tok::Semi => seq![';'],
    }
}

/// Tokens written out, each followed by a space.
pub open spec fn render(ts: Seq<Tok>) -> Seq<char>
    decreases ts.len(),
{
    if ts.len() == 0 {
        Seq::empty()
    } else {
        tok_text(ts[0]) + seq![' '] + render(ts.drop_first())
    }
}

/// The source text of a program tree.
pub open spec fn source_text(p: Prog) -> Seq<char> {
    render(arg_toks(p))
}

/// Every word among the tokens is printable.
pub open spec fn good_toks(ts: Seq<Tok>) -> bool {
    forall|i: int| 0 <= i < ts.len() ==> (#[trigger] ts[i] matches Tok::Word(w) ==> printable_word(w))
}

proof fn lemma_good_concat(a: Seq<Tok>, b: Seq<Tok>)
    requires
        good_toks(a),
        good_toks(b),
    ensures
        good_toks(a + b),
{
    assert forall|i: int| 0 <= i < (a + b).len() implies ((#[trigger] (a + b)[i]) matches Tok::Word(w) ==> printable_word(w)) by {
        if i < a.len() {
            assert((a + b)[i] == a[i]);
        } else {
            assert((a + b)[i] == b[i - a.len()]);
        }
    }
}

proof fn lemma_good_call(c: Prog)
    requires
        printable(c),
    ensures
        good_toks(call_toks(c)),
    decreases c, 1nat,
{
    match c {
        Prog::Call(f, a) => {
            lemma_good_call(*f);
            lemma_good_arg(*a);
            lemma_good_concat(call_toks(*f), arg_toks(*a));
        },
        _ => {
            lemma_good_arg(c);
        },
    }
}

proof fn lemma_good_arg(x: Prog)
    requires
        printable(x),
    ensures
        good_toks(arg_toks(x)),
    decreases x, 0nat,
{
    match x {
        Prog::Call(f, a) => {
            lemma_good_call(*f);
            lemma_good_arg(*a);
            lemma_good_concat(seq![Tok::LParen], call_toks(*f));
            lemma_good_concat(seq![Tok::LParen] + call_toks(*f), arg_toks(*a));
            lemma_good_concat(seq![Tok::LParen] + call_toks(*f) + arg_toks(*a), seq![Tok::RParen]);
        },
        Prog::Lambda(ps, b) => {
            let wt = word_toks(ps);
            assert(good_toks(wt)) by {
                assert forall|i: int| 0 <= i < wt.len() implies ((#[trigger] wt[i]) matches Tok::Word(w) ==> printable_word(w)) by {
                    assert(wt[i] == Tok::Word(ps[i]));
                }
            }
            assert(printable_word("=>"@)) by {
                reveal_strlit("=>");
            }
            assert(good_toks(seq![Tok::Word("=>"@)]));
            lemma_good_body(x, b.len() as int);
            assert(b.take(b.len() as int) =~= b);
            lemma_good_concat(seq![Tok::LBrace], wt);
            lemma_good_concat(seq![Tok::LBrace] + wt, seq![Tok::Word("=>"@)]);
            lemma_good_concat(seq![Tok::LBrace] + wt + seq![Tok::Word("=>"@)], body_toks(b));
            lemma_good_concat(seq![Tok::LBrace] + wt + seq![Tok::Word("=>"@)] + body_toks(b), seq![Tok::RBrace]);
        },
        Prog::Ref(w) => {},
        Prog::Num(n) => {
            lemma_decimal_reads_back(n);
        },
    }
}

proof fn lemma_good_body(x: Prog, k: int)
    requires
        printable(x),
        x is Lambda,
        0 <= k <= x->Lambda_1.len(),
    ensures
        good_toks(body_toks(x->Lambda_1.take(k))),
    decreases x, 0nat, k,
{
    let b = x->Lambda_1;
    if k > 0 {
        lemma_good_body(x, k - 1);
        assert(b.take(k).drop_last() =~= b.take(k - 1));
        lemma_good_call(b[k - 1]);
        lemma_good_concat(body_toks(b.take(k - 1)), call_toks(b[k - 1]));
        lemma_good_concat(body_toks(b.take(k - 1)) + call_toks(b[k - 1]), seq![Tok::Semi]);
    } else {
        assert(body_toks(b.take(0)) =~= Seq::<Tok>::empty());
    }
}

proof fn lemma_lex_run(s: Seq<char>, run: Seq<char>, k: int)
    requires
        0 <= k <= s.len(),
        forall|j: int| 0 <= j < k ==> !is_delimiter(#[trigger] s[j]) && !is_space(s[j]),
    ensures
        lex_from(s, run) == lex_from(s.skip(k), run + s.take(k)),
    decreases k,
{
    if k == 0 {
        assert(s.skip(0) =~= s);
        assert(run + s.take(0) =~= run);
    } else {
        let t = s.drop_first();
        assert forall|j: int| 0 <= j < k - 1 implies !is_delimiter(#[trigger] t[j]) && !is_space(t[j]) by {
            assert(t[j] == s[j + 1]);
        }
        lemma_lex_run(t, run.push(s[0]), k - 1);
        assert(t.skip(k - 1) =~= s.skip(k));
        assert(run.push(s[0]) + t.take(k - 1) =~= run + s.take(k));
    }
}

/// Lexing rendered tokens gives the tokens back.
proof fn lemma_lex_render(ts: Seq<Tok>)
    requires
        good_toks(ts),
    ensures
        lex(render(ts)) == ts,
    decreases ts.len(),
{
    if ts.len() == 0 {
        assert(render(ts) =~= Seq::<char>::empty());
        assert(lex(Seq::<char>::empty()) =~= Seq::<Tok>::empty());
        assert(ts =~= Seq::<Tok>::empty());
    } else {
        let rest = ts.drop_first();
        assert(good_toks(rest)) by {
            assert forall|i: int| 0 <= i < rest.len() implies ((#[trigger] rest[i]) matches Tok::Word(w) ==> printable_word(w)) by {
                assert(rest[i] == ts[i + 1]);
            }
        }
        lemma_lex_render(rest);
        let r = render(rest);
        let s = render(ts);
        assert(s == tok_text(ts[0]) + seq![' '] + r);
        let sp = seq![' '] + r;
        assert(sp[0] == ' ');
        assert(sp.drop_first() =~= r);
        assert(lex_from(sp, Seq::empty()) == lex_from(r, Seq::empty()));
        match ts[0] {
            Tok::Word(w) => {
                assert(printable_word(w));
                assert(s =~= w + sp);
                assert forall|j: int| 0 <= j < w.len() implies !is_delimiter(#[trigger] s[j]) && !is_space(s[j]) by {
                    assert(s[j] == w[j]);
                }
                lemma_lex_run(s, Seq::empty(), w.len() as int);
                assert(s.skip(w.len() as int) =~= sp);
                assert(Seq::<char>::empty() + s.take(w.len() as int) =~= w);
                assert(lex_from(sp, w) == seq![Tok::Word(w)] + lex_from(r, Seq::empty()));
                assert(lex(s) =~= ts);
            },
            _ => {
                let c = tok_text(ts[0])[0];
                assert(s =~= seq![c] + sp);
                assert(s[0] == c);
                assert(s.drop_first() =~= sp);
                assert(lex(s) == Seq::<Tok>::empty() + seq![crate::tokenizer::delimiter_tok(c)] + lex_from(sp, Seq::empty()));
                assert(lex(s) =~= ts);
            },
        }
    }
}

proof fn lemma_syntax_concat(a: Seq<Tok>, b: Seq<Tok>)
    requires
        syntax_ok(a),
        syntax_ok(b),
        b.len() > 0 && b[0] == Tok::RBrace ==> a.len() > 0 && a.last() == Tok::Semi,
    ensures
        syntax_ok(a + b),
{
    let c = a + b;
    assert forall|i: int| 0 <= i < c.len() && #[trigger] c[i] == Tok::RBrace implies i > 0 && c[i - 1]
        == Tok::Semi by {
        if i < a.len() {
            assert(a[i] == c[i]);
            assert(c[i - 1] == a[i - 1]);
        } else {
            let j = i - a.len();
            assert(b[j] == c[i]);
            if j > 0 {
                assert(c[i - 1] == b[j - 1]);
            } else {
                assert(c[i - 1] == a.last());
            }
        }
    }
}

proof fn lemma_close_brace(a: Seq<Tok>)
    requires
        syntax_ok(a),
        a.len() > 0,
        a.last() == Tok::Semi,
    ensures
        syntax_ok(a.push(Tok::RBrace)),
        syntax_ok(a + seq![Tok::RBrace]),
{
    let c = a.push(Tok::RBrace);
    assert forall|i: int| 0 <= i < c.len() && #[trigger] c[i] == Tok::RBrace implies i > 0 && c[i - 1]
        == Tok::Semi by {
        if i < a.len() {
            assert(a[i] == c[i]);
            assert(c[i - 1] == a[i - 1]);
        } else {
            assert(c[i - 1] == a.last());
        }
    }
    assert(a + seq![Tok::RBrace] =~= c);
}

proof fn lemma_syntax_one(x: Tok)
    requires
        x != Tok::RBrace,
    ensures
        syntax_ok(seq![x]),
{
    assert(seq![x][0] == x);
}

proof fn lemma_arg_toks_first(x: Prog)
    ensures
        arg_toks(x).len() >= 1,
        arg_toks(x)[0] != Tok::RBrace,
{
    match x {
        Prog::Lambda(_, _) => {
            assert(arg_toks(x)[0] == Tok::LBrace);
        },
        Prog::Call(_, _) => {
            assert(arg_toks(x)[0] == Tok::LParen);
        },
        _ => {},
    }
}

proof fn lemma_syntax_call(c: Prog)
    requires
        printable(c),
    ensures
        syntax_ok(call_toks(c)),
    decreases c, 1nat,
{
    match c {
        Prog::Call(f, a) => {
            lemma_syntax_call(*f);
            lemma_syntax_arg(*a);
            lemma_arg_toks_first(*a);
            lemma_syntax_concat(call_toks(*f), arg_toks(*a));
        },
        _ => {
            lemma_syntax_arg(c);
        },
    }
}

proof fn lemma_syntax_arg(x: Prog)
    requires
        printable(x),
    ensures
        syntax_ok(arg_toks(x)),
    decreases x, 0nat,
{
    match x {
        Prog::Call(f, a) => {
            lemma_syntax_call(*f);
            lemma_syntax_arg(*a);
            lemma_call_toks_first(*f);
            lemma_arg_toks_first(*a);
            lemma_syntax_one(Tok::LParen);
            lemma_syntax_one(Tok::RParen);
            lemma_syntax_concat(seq![Tok::LParen], call_toks(*f));
            lemma_syntax_concat(seq![Tok::LParen] + call_toks(*f), arg_toks(*a));
            lemma_syntax_concat(seq![Tok::LParen] + call_toks(*f) + arg_toks(*a), seq![Tok::RParen]);
        },
        Prog::Lambda(ps, b) => {
            let wt = word_toks(ps);
            let arrow = seq![Tok::Word("=>"@)];
            assert(syntax_ok(wt)) by {
                assert forall|i: int| 0 <= i < wt.len() implies #[trigger] wt[i] != Tok::RBrace by {
                    assert(wt[i] == Tok::Word(ps[i]));
                }
            }
            lemma_syntax_one(Tok::LBrace);
            lemma_syntax_one(Tok::Word("=>"@));
            lemma_syntax_body(x, b.len() as int);
            assert(b.take(b.len() as int) =~= b);
            let bt = body_toks(b);
            assert(b.drop_last().len() < b.len());
            assert(bt.last() == Tok::Semi);
            lemma_syntax_concat(seq![Tok::LBrace], wt);
            lemma_syntax_concat(seq![Tok::LBrace] + wt, arrow);
            assert(bt.len() > 0 && bt[0] == Tok::RBrace ==> false) by {
                lemma_body_toks_first(b);
            }
            lemma_syntax_concat(seq![Tok::LBrace] + wt + arrow, bt);
            lemma_close_brace(seq![Tok::LBrace] + wt + arrow + bt);
        },
        _ => {
            lemma_arg_toks_first(x);
            lemma_syntax_one(arg_toks(x)[0]);
            assert(arg_toks(x) =~= seq![arg_toks(x)[0]]);
        },
    }
}

proof fn lemma_body_toks_first(b: Seq<Prog>)
    ensures
        body_toks(b).len() > 0 ==> body_toks(b)[0] != Tok::RBrace,
    decreases b.len(),
{
    if b.len() > 0 {
        lemma_body_toks_first(b.drop_last());
        lemma_call_toks_first(b.last());
        let pre = body_toks(b.drop_last());
        let ct = call_toks(b.last());
        assert(body_toks(b) == pre + ct + seq![Tok::Semi]);
        if pre.len() > 0 {
            assert(body_toks(b)[0] == pre[0]);
        } else {
            assert(body_toks(b)[0] == ct[0]);
        }
    }
}

proof fn lemma_syntax_body(x: Prog, k: int)
    requires
        printable(x),
        x is Lambda,
        0 <= k <= x->Lambda_1.len(),
    ensures
        syntax_ok(body_toks(x->Lambda_1.take(k))),
    decreases x, 0nat, k,
{
    let b = x->Lambda_1;
    if k > 0 {
        lemma_syntax_body(x, k - 1);
        assert(b.take(k).drop_last() =~= b.take(k - 1));
        let s = b[k - 1];
        lemma_syntax_call(s);
        lemma_call_toks_first(s);
        lemma_syntax_one(Tok::Semi);
        lemma_syntax_concat(body_toks(b.take(k - 1)), call_toks(s));
        lemma_syntax_concat(body_toks(b.take(k - 1)) + call_toks(s), seq![Tok::Semi]);
    } else {
        assert(body_toks(b.take(0)) =~= Seq::<Tok>::empty());
    }
}

/// Printing a program tree in the parser's normal form gives text that
/// passes the syntax check and reads back (tokens, expression tree, program
/// tree, back-ticks stripped) as the same tree.
pub proof fn lemma_print_parse_round_trip(p: Prog)
    requires
        printable(p),
        p is Lambda,
    ensures
        syntax_ok(lex(source_text(p))),
        program_of(lex(source_text(p)), 0) == Some(p),
{
    let t = arg_toks(p);
    lemma_good_arg(p);
    lemma_lex_render(t);
    lemma_syntax_arg(p);
    assert(t.subrange(0, t.len() as int) =~= t);
    lemma_parse_arg(t, 0, true, Seq::empty(), p);
    let e = arg_expr(p);
    assert(seq![e].len() == 1);
    assert(parse_seq(t, t.len() as int, true, seq![e]) == (Ok::<Expr, int>(e), t.len() as int));
    assert(Seq::<Expr>::empty().push(e) =~= seq![e]);
    lemma_lower_arg(p);
    assert(lower_top(e) == lower_expr(e));
    lemma_finalized_printable(p);
}

impl ProgramAST {
    /// Appends the tokens of the tree in argument position.
    fn push_arg_toks(&self, out: &mut Vec<Token>)
        ensures
            toks(final(out)@) == toks(old(out)@) + arg_toks(self@),
        decreases self, 0nat,
    {
        let ghost o = toks(out@);
        match self {
            ProgramAST::FunctionCall { function, arg } => {
                out.push(Token::OpeningBracket);
                proof { assert(toks(out@) =~= o + seq![Tok::LParen]); }
                function.push_call_toks(out);
                arg.push_arg_toks(out);
                let ghost o2 = toks(out@);
                out.push(Token::ClosingBracket);
                proof {
                    assert(toks(out@) =~= o2 + seq![Tok::RParen]);
                    assert(toks(out@) =~= o + arg_toks(self@));
                }
            },
            ProgramAST::FunctionDef(def) => {
                proof {
                    lemma_prog_views(def.block@);
                    lemma_strs(def.arg_tokens@);
                    assert forall|k: int| 0 <= k < def.block@.len() implies decreases_to!(*self => #[trigger] def.block@[k]) by {
                        assert(decreases_to!(def.block => def.block[k]));
                        assert(decreases_to!(*def => def.block));
                        assert(decreases_to!(*self => *def));
                    }
                }
                let ghost ps = strs(def.arg_tokens@);
                let ghost b = prog_views(def.block@);
                out.push(Token::OpeningCodeBlock);
                proof { assert(toks(out@) =~= o + seq![Tok::LBrace] + word_toks(ps.take(0))); }
                let mut i: usize = 0;
                while i < def.arg_tokens.len()
                    invariant
                        i <= def.arg_tokens@.len(),
                        ps == strs(def.arg_tokens@),
                        ps.len() == def.arg_tokens@.len(),
                        forall|k: int| 0 <= k < ps.len() ==> #[trigger] ps[k] == def.arg_tokens@[k]@,
                        toks(out@) == o + seq![Tok::LBrace] + word_toks(ps.take(i as int)),
                    decreases def.arg_tokens@.len() - i,
                {
                    let ghost before = toks(out@);
                    out.push(Token::Token(def.arg_tokens[i].clone()));
                    i = i + 1;
                    proof {
                        assert(ps.take(i as int) =~= ps.take(i - 1).push(ps[i - 1]));
                        assert(word_toks(ps.take(i as int)) =~= word_toks(ps.take(i - 1)).push(Tok::Word(ps[i - 1])));
                        assert(toks(out@) =~= before.push(Tok::Word(ps[i - 1])));
                        assert(toks(out@) =~= o + seq![Tok::LBrace] + word_toks(ps.take(i as int)));
                    }
                }
                proof { assert(ps.take(i as int) =~= ps); }
                let ghost o2 = toks(out@);
                out.push(Token::Token(String::from_str("=>")));
                proof {
                    assert(toks(out@) =~= o2 + seq![Tok::Word("=>"@)]);
                    assert(b.take(0) =~= Seq::<Prog>::empty());
                    assert(toks(out@) =~= o + seq![Tok::LBrace] + word_toks(ps) + seq![Tok::Word("=>"@)] + body_toks(b.take(0)));
                }
                let ghost o3 = o + seq![Tok::LBrace] + word_toks(ps) + seq![Tok::Word("=>"@)];
                let mut j: usize = 0;
                while j < def.block.len()
                    invariant
                        forall|k: int| 0 <= k < def.block@.len() ==> decreases_to!(*self => #[trigger] def.block@[k]),
                        j <= def.block@.len(),
                        b == prog_views(def.block@),
                        b.len() == def.block@.len(),
                        forall|k: int| 0 <= k < b.len() ==> #[trigger] b[k] == def.block@[k]@,
                        toks(out@) == o3 + body_toks(b.take(j as int)),
                    decreases def.block@.len() - j,
                {
                    def.block[j].push_call_toks(out);
                    let ghost o4 = toks(out@);
                    out.push(Token::EndStatement);
                    j = j + 1;
                    proof {
                        assert(b.take(j as int).drop_last() =~= b.take(j - 1));
                        assert(b.take(j as int).last() == b[j - 1]);
                        assert(toks(out@) =~= o4 + seq![Tok::Semi]);
                        assert(toks(out@) =~= o3 + body_toks(b.take(j as int)));
                    }
                }
                proof { assert(b.take(j as int) =~= b); }
                let ghost o5 = toks(out@);
                out.push(Token::ClosingCodeBlock);
                proof {
                    assert(toks(out@) =~= o5 + seq![Tok::RBrace]);
                    assert(toks(out@) =~= o + arg_toks(self@));
                }
            },
            ProgramAST::FunctionRef { token } => {
                out.push(Token::Token(token.clone()));
                proof { assert(toks(out@) =~= o + arg_toks(self@)); }
            },
            ProgramAST::Value { value } => {
                let mut w = String::new();
                push_decimal(&mut w, *value);
                proof { assert(w@ =~= decimal(*value as nat)); }
                out.push(Token::Token(w));
                proof { assert(toks(out@) =~= o + arg_toks(self@)); }
            },
        }
    }

    /// Appends the tokens of the tree in statement position.
    fn push_call_toks(&self, out: &mut Vec<Token>)
        ensures
            toks(final(out)@) == toks(old(out)@) + call_toks(self@),
        decreases self, 1nat,
    {
        match self {
            ProgramAST::FunctionCall { function, arg } => {
                let ghost o = toks(out@);
                function.push_call_toks(out);
                arg.push_arg_toks(out);
                proof { assert(toks(out@) =~= o + call_toks(self@)); }
            },
            _ => self.push_arg_toks(out),
        }
    }

    /// The source text of the tree: every token followed by a space, calls
    /// in argument position in parentheses, function literals as
    /// `{ params => statement ; ... }`.
    pub fn to_source(&self) -> (r: String)
        ensures
            r@ == source_text(self@),
    {
        let mut ts: Vec<Token> = Vec::new();
        proof { assert(toks(ts@) =~= Seq::<Tok>::empty()); }
        self.push_arg_toks(&mut ts);
        proof { assert(toks(ts@) =~= arg_toks(self@)); }
        render_tokens(&ts)
    }
}

proof fn lemma_render_push(a: Seq<Tok>, t: Tok)
    ensures
        render(a.push(t)) == render(a) + tok_text(t) + seq![' '],
    decreases a.len(),
{
    if a.len() == 0 {
        assert(a.push(t).drop_first() =~= Seq::<Tok>::empty());
        assert(a.push(t)[0] == t);
        assert(render(Seq::<Tok>::empty()) == Seq::<char>::empty());
        assert(render(a) == Seq::<char>::empty());
        assert(render(a.push(t)) == tok_text(t) + seq![' '] + render(Seq::<Tok>::empty()));
        assert(render(a.push(t)) =~= render(a) + tok_text(t) + seq![' ']);
    } else {
        lemma_render_push(a.drop_first(), t);
        assert(a.push(t).drop_first() =~= a.drop_first().push(t));
        assert(a.push(t)[0] == a[0]);
        assert(render(a.push(t)) == tok_text(a[0]) + seq![' '] + render(a.drop_first().push(t)));
        assert(render(a) == tok_text(a[0]) + seq![' '] + render(a.drop_first()));
        assert(render(a.push(t)) =~= render(a) + tok_text(t) + seq![' ']);
    }
}

/// Writes out tokens, each followed by a space.
fn render_tokens(ts: &Vec<Token>) -> (r: String)
    ensures
        r@ == render(toks(ts@)),
{
    let ghost all = toks(ts@);
    let mut out = String::new();
    let mut i: usize = 0;
    proof {
        assert(all.take(0) =~= Seq::<Tok>::empty());
        assert(out@ =~= render(all.take(0)));
    }
    while i < ts.len()
        invariant
            i <= ts@.len(),
            all == toks(ts@),
            all.len() == ts@.len(),
            out@ == render(all.take(i as int)),
        decreases ts@.len() - i,
    {
        let ghost before = out@;
        let ghost t = all[i as int];
        proof {
            assert(t == ts@[i as int]@);
            reveal_strlit("(");
            reveal_strlit(")");
            reveal_strlit("{");
            reveal_strlit("}");
            reveal_strlit(";");
            reveal_strlit(" ");
        }
        match &ts[i] {
            Token::Token(w) => out.append(w.as_str()),
            Token::OpeningBracket => out.append("("),
            Token::ClosingBracket => out.append(")"),
            Token::OpeningCodeBlock => out.append("{"),
            Token::ClosingCodeBlock => out.append("}"),
            Token::EndStatement => out.append(";"),
        }
        out.append(" ");
        i = i + 1;
        proof {
            lemma_render_push(all.take(i - 1), t);
            assert(all.take(i as int) =~= all.take(i - 1).push(t));
            assert(out@ =~= before + tok_text(t) + seq![' ']);
        }
    }
    proof {
        assert(all.take(i as int) =~= all);
    }
    out
}

} // verus!
