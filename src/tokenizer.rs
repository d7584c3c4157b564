use vstd::prelude::*;

verus! {

/// A lexical token: a word, or one of the five delimiter characters.
#[derive(Debug, Clone)]
pub enum Token {
    Token(String),
    OpeningBracket,
    ClosingBracket,
    OpeningCodeBlock,
    ClosingCodeBlock,
    EndStatement,
}

/// The mathematical model of a `Token`.
pub enum Tok {
    Word(Seq<char>),
    LParen,
    RParen,
    LBrace,
    RBrace,
    Semi,
}

impl Token {
    pub open spec fn view(&self) -> Tok {
        match self {
            Token::Token(s) => Tok::Word(s@),
            Token::OpeningBracket => Tok::LParen,
            Token::ClosingBracket => Tok::RParen,
            Token::OpeningCodeBlock => Tok::LBrace,
            Token::ClosingCodeBlock => Tok::RBrace,
            Token::EndStatement => Tok::Semi,
        }
    }

    /// A copy of the token.
    pub fn copy(&self) -> (r: Token)
        ensures
            r@ == self@,
    {
        match self {
            Token::Token(s) => Token::Token(s.clone()),
            Token::OpeningBracket => Token::OpeningBracket,
            Token::ClosingBracket => Token::ClosingBracket,
            Token::OpeningCodeBlock => Token::OpeningCodeBlock,
            Token::ClosingCodeBlock => Token::ClosingCodeBlock,
            Token::EndStatement => Token::EndStatement,
        }
    }

    /// Whether two tokens are the same token.
    pub fn same(&self, other: &Token) -> (r: bool)
        ensures
            r == (self@ == other@),
    {
        match (self, other) {
            (Token::Token(a), Token::Token(b)) => a.eq(b),
            (Token::OpeningBracket, Token::OpeningBracket) => true,
            (Token::ClosingBracket, Token::ClosingBracket) => true,
            (Token::OpeningCodeBlock, Token::OpeningCodeBlock) => true,
            (Token::ClosingCodeBlock, Token::ClosingCodeBlock) => true,
            (Token::EndStatement, Token::EndStatement) => true,
            _ => false,
        }
    }
}

/// The models of a list of tokens.
pub open spec fn toks(v: Seq<Token>) -> Seq<Tok> {
    v.map_values(|t: Token| t@)
}

pub open spec fn is_delimiter(c: char) -> bool {
    c == ';' || c == '(' || c == ')' || c == '{' || c == '}'
}

pub open spec fn is_space(c: char) -> bool {
    c == ' ' || c == '\n' || c == '\t' || c == '\r'
}

pub open spec fn delimiter_tok(c: char) -> Tok {
    if c == ';' {
        Tok::Semi
    } else if c == '(' {
        Tok::LParen
    } else if c == ')' {
        Tok::RParen
    } else if c == '{' {
        Tok::LBrace
    } else {
        Tok::RBrace
    }
}

/// A pending word, as a token list of zero or one element.
pub open spec fn flush_word(run: Seq<char>) -> Seq<Tok> {
    if run.len() > 0 {
        seq![Tok::Word(run)]
    } else {
        Seq::empty()
    }
}

/// The tokens of `s`, where `run` holds the characters of the word read so far.
pub open spec fn lex_from(s: Seq<char>, run: Seq<char>) -> Seq<Tok>
    decreases s.len(),
{
    if s.len() == 0 {
        flush_word(run)
    } else if is_delimiter(s[0]) {
        flush_word(run) + seq![delimiter_tok(s[0])] + lex_from(s.drop_first(), Seq::empty())
    } else if is_space(s[0]) {
        flush_word(run) + lex_from(s.drop_first(), Seq::empty())
    } else {
        lex_from(s.drop_first(), run.push(s[0]))
    }
}

/// The tokens of a source text: each delimiter alone, each maximal run of
/// other non-space characters as a word, spaces dropped.
pub open spec fn lex(s: Seq<char>) -> Seq<Tok> {
    lex_from(s, Seq::empty())
}

/// Every `}` is directly preceded by a `;`.
pub open spec fn syntax_ok(t: Seq<Tok>) -> bool {
    forall|i: int| 0 <= i < t.len() && #[trigger] t[i] == Tok::RBrace ==> i > 0 && t[i - 1] == Tok::Semi
}

/// `target` occurs at or after `from`, before any token of `until`.
pub open spec fn reaches_before(t: Seq<Tok>, from: int, until: Seq<Tok>, target: Tok) -> bool {
    exists|j: int|
        from <= j < t.len() && t[j] == target && forall|k: int|
            from <= k < j ==> !until.contains(#[trigger] t[k])
}

/// A token sequence with a cursor.
pub struct Tokenizer {
    content: Vec<Token>,
    pos: usize,
}

impl Tokenizer {
    /// The tokens.
    pub closed spec fn tokens(&self) -> Seq<Tok> {
        toks(self.content@)
    }

    /// The position of the next token to read.
    pub closed spec fn cursor(&self) -> nat {
        self.pos as nat
    }

    pub closed spec fn wf(&self) -> bool {
        self.pos <= self.content@.len()
    }

    pub proof fn lemma_cursor_in_range(&self)
        requires
            self.wf(),
        ensures
            self.cursor() <= self.tokens().len(),
    {
    }

    pub fn new(input: &str) -> (r: Self)
        ensures
            r.wf(),
            r.tokens() == lex(input@),
            r.cursor() == 0,
    {
        let len = input.unicode_len();
        let ghost s = input@;
        let mut content: Vec<Token> = Vec::new();
        let mut st: usize = 0;
        let mut i: usize = 0;
        proof {
            assert(s.skip(0) =~= s);
            assert(s.subrange(0, 0) =~= Seq::<char>::empty());
            assert(toks(content@) =~= Seq::<Tok>::empty());
            assert(toks(content@) + lex_from(s, Seq::<char>::empty()) =~= lex(s));
        }
        while i < len
            invariant
                len == s.len(),
                s == input@,
                st <= i <= len,
                toks(content@) + lex_from(s.skip(i as int), s.subrange(st as int, i as int))
                    == lex(s),
            decreases len - i,
        {
            let c = input.get_char(i);
            let ghost rest = s.skip(i as int);
            let ghost run = s.subrange(st as int, i as int);
            proof {
                assert(rest[0] == c);
                assert(rest.drop_first() =~= s.skip(i + 1));
            }
            if c == ';' || c == '(' || c == ')' || c == '{' || c == '}' {
                let ghost before = toks(content@);
                if st < i {
                    let w = input.substring_char(st, i).to_owned();
                    content.push(Token::Token(w));
                }
                let t = if c == ';' {
                    Token::EndStatement
                } else if c == '(' {
                    Token::OpeningBracket
                } else if c == ')' {
                    Token::ClosingBracket
                } else if c == '{' {
                    Token::OpeningCodeBlock
                } else {
                    Token::ClosingCodeBlock
                };
                content.push(t);
                proof {
                    assert(toks(content@) =~= before + flush_word(run) + seq![delimiter_tok(c)]);
                    assert(s.subrange(i + 1, i + 1) =~= Seq::<char>::empty());
                }
                st = i + 1;
            } else if c == ' ' || c == '\n' || c == '\t' || c == '\r' {
                let ghost before = toks(content@);
                if st < i {
                    let w = input.substring_char(st, i).to_owned();
                    content.push(Token::Token(w));
                }
                proof {
                    assert(toks(content@) =~= before + flush_word(run));
                    assert(s.subrange(i + 1, i + 1) =~= Seq::<char>::empty());
                }
                st = i + 1;
            } else {
                proof {
                    assert(run.push(c) =~= s.subrange(st as int, i + 1));
                }
            }
            i = i + 1;
        }
        let ghost before = toks(content@);
        let ghost run = s.subrange(st as int, i as int);
        if st < i {
            let w = input.substring_char(st, i).to_owned();
            content.push(Token::Token(w));
        }
        proof {
            assert(s.skip(i as int) =~= Seq::<char>::empty());
            assert(toks(content@) =~= before + flush_word(run));
        }
        Tokenizer { content, pos: 0 }
    }

    /// Reads the next token and moves past it.
    pub fn next(&mut self) -> (r: Option<Token>)
        requires
            old(self).wf(),
        ensures
            final(self).wf(),
            final(self).tokens() == old(self).tokens(),
            final(self).cursor() <= final(self).tokens().len(),
            old(self).cursor() < old(self).tokens().len() ==> r.is_some() && r->0@ == old(self).tokens()[old(self).cursor() as int] && final(self).cursor() == old(self).cursor()
                + 1,
            old(self).cursor() >= old(self).tokens().len() ==> r.is_none() && final(self).cursor()
                == old(self).cursor(),
    {
        if self.pos < self.content.len() {
            let t = self.content[self.pos].copy();
            self.pos = self.pos + 1;
            Some(t)
        } else {
            None
        }
    }

    /// Whether `matches` comes at or after the cursor before any token of `until`.
    pub fn lookahead_until(&self, until: &[Token], matches: &Token) -> (r: bool)
        requires
            self.wf(),
        ensures
            r == reaches_before(self.tokens(), self.cursor() as int, toks(until@), matches@),
    {
        let ghost t = self.tokens();
        let ghost u = toks(until@);
        let mut counter: usize = self.pos;
        while counter < self.content.len()
            invariant
                self.pos <= counter <= self.content@.len(),
                t == self.tokens(),
                u == toks(until@),
                forall|k: int| self.pos <= k < counter ==> #[trigger] t[k] != matches@ && !u.contains(t[k]),
            decreases self.content@.len() - counter,
        {
            let curr = &self.content[counter];
            if curr.same(matches) {
                proof {
                    assert(t[counter as int] == matches@);
                    assert(forall|k: int| self.pos <= k < counter ==> !u.contains(#[trigger] t[k]));
                }
                return true;
            }
            let mut stop = false;
            let mut j: usize = 0;
            while j < until.len()
                invariant
                    j <= until@.len(),
                    u == toks(until@),
                    stop == exists|m: int| 0 <= m < j && u[m] == curr@,
                decreases until@.len() - j,
            {
                assert(u[j as int] == until@[j as int]@);
                if until[j].same(curr) {
                    stop = true;
                }
                j = j + 1;
            }
            if stop {
                proof {
                    assert(curr@ == t[counter as int]);
                    let m = choose|m: int| 0 <= m < until@.len() && u[m] == curr@;
                    assert(u.contains(t[counter as int]));
                    assert forall|j: int| self.pos <= j < t.len() && t[j] == matches@ implies
                        exists|k: int| self.pos <= k < j && u.contains(#[trigger] t[k]) by {
                        assert(j > counter);
                        assert(u.contains(t[counter as int]));
                    }
                }
                return false;
            }
            counter = counter + 1;
        }
        false
    }

    /// Moves the cursor back by one token, unless it is at the start.
    pub fn back(&mut self)
        requires
            old(self).wf(),
        ensures
            final(self).wf(),
            final(self).tokens() == old(self).tokens(),
            final(self).cursor() <= final(self).tokens().len(),
            final(self).cursor() == if old(self).cursor() > 0 {
                (old(self).cursor() - 1) as nat
            } else {
                0
            },
    {
        if self.pos > 0 {
            self.pos = self.pos - 1;
        }
    }

    /// Checks that every `}` is directly preceded by a `;`, and moves the
    /// cursor to the start.
    pub fn verify_syntax(&mut self) -> (r: bool)
        requires
            old(self).wf(),
        ensures
            final(self).wf(),
            final(self).tokens() == old(self).tokens(),
            final(self).cursor() == 0,
            r == syntax_ok(old(self).tokens()),
    {
        let ghost t = self.tokens();
        self.pos = 0;
        let mut i: usize = 0;
        while i < self.content.len()
            invariant
                i <= self.content@.len(),
                t == self.tokens(),
                t == old(self).tokens(),
                self.content@.len() == t.len(),
                self.pos == 0,
                forall|k: int| 0 <= k < i && #[trigger] t[k] == Tok::RBrace ==> k > 0 && t[k - 1] == Tok::Semi,
            decreases self.content@.len() - i,
        {
            match &self.content[i] {
                Token::ClosingCodeBlock => {
                    assert(t[i as int] == Tok::RBrace);
                    if i == 0 {
                        return false;
                    }
                    match &self.content[i - 1] {
                        Token::EndStatement => {},
                        _ => {
                            assert(t[i - 1] != Tok::Semi);
                            return false;
                        },
                    }
                },
                _ => {},
            }
            i = i + 1;
        }
        true
    }

    pub fn pos(&self) -> (r: usize)
        ensures
            r == self.cursor(),
    {
        self.pos
    }
}

} // verus!
