use vstd::prelude::*;

verus! {

/// A piece of a split string: a maximal run of ordinary characters, or one
/// delimiter character.
#[derive(Clone, Debug, PartialEq, Eq)]
pub enum SplitType {
    Match(String),
    Delimiter(String),
}

/// The mathematical model of a `SplitType`.
pub enum Piece {
    Match(Seq<char>),
    Delimiter(Seq<char>),
}

impl SplitType {
    pub open spec fn view(&self) -> Piece {
        match self {
            SplitType::Match(s) => Piece::Match(s@),
            SplitType::Delimiter(s) => Piece::Delimiter(s@),
        }
    }

    /// The text of the piece.
    pub fn as_str(&self) -> (r: &str)
        ensures
            r@ == piece_text(self@),
    {
        match self {
            SplitType::Match(s) => s.as_str(),
            SplitType::Delimiter(s) => s.as_str(),
        }
    }
}

/// The models of a list of pieces.
pub open spec fn pieces(v: Seq<SplitType>) -> Seq<Piece> {
    v.map_values(|p: SplitType| p@)
}

pub open spec fn piece_text(p: Piece) -> Seq<char> {
    match p {
        Piece::Match(s) => s,
        Piece::Delimiter(s) => s,
    }
}

/// A pending run of ordinary characters, as a piece list of zero or one element.
pub open spec fn flush_run(run: Seq<char>) -> Seq<Piece> {
    if run.len() > 0 {
        seq![Piece::Match(run)]
    } else {
        Seq::empty()
    }
}

/// Splits `s` at every character of `delims`, keeping each delimiter as a
/// piece of its own; `run` holds the ordinary characters read so far.
pub open spec fn split_from(s: Seq<char>, delims: Seq<char>, run: Seq<char>) -> Seq<Piece>
    decreases s.len(),
{
    if s.len() == 0 {
        flush_run(run)
    } else if delims.contains(s[0]) {
        flush_run(run) + seq![Piece::Delimiter(seq![s[0]])] + split_from(
            s.drop_first(),
            delims,
            Seq::empty(),
        )
    } else {
        split_from(s.drop_first(), delims, run.push(s[0]))
    }
}

/// The pieces of `s` split at the characters of `delims`, delimiters kept.
pub open spec fn split_keeping(s: Seq<char>, delims: Seq<char>) -> Seq<Piece> {
    split_from(s, delims, Seq::empty())
}

/// Reading `k` ordinary characters moves them into the pending run.
pub proof fn lemma_split_run(s: Seq<char>, delims: Seq<char>, run: Seq<char>, k: int)
    requires
        0 <= k <= s.len(),
        forall|j: int| 0 <= j < k ==> !delims.contains(#[trigger] s[j]),
    ensures
        split_from(s, delims, run) == split_from(s.skip(k), delims, run + s.take(k)),
    decreases k,
{
    if k == 0 {
        assert(s.skip(0) =~= s);
        assert(run + s.take(0) =~= run);
    } else {
        assert(!delims.contains(s[0]));
        let t = s.drop_first();
        assert forall|j: int| 0 <= j < k - 1 implies !delims.contains(#[trigger] t[j]) by {
            assert(t[j] == s[j + 1]);
        }
        lemma_split_run(t, delims, run.push(s[0]), k - 1);
        assert(t.skip(k - 1) =~= s.skip(k));
        assert(run.push(s[0]) + t.take(k - 1) =~= run + s.take(k));
    }
}

/// Splitting state: the pieces of `haystack` from `start` on, after a
/// pending delimiter ending at `saved` when there is one.
pub struct SplitKeepingDelimiter<'a> {
    haystack: &'a str,
    chars: &'a [char],
    start: usize,
    saved: Option<usize>,
}

impl<'a> SplitKeepingDelimiter<'a> {
    pub closed spec fn wf(&self) -> bool {
        &&& self.start <= self.haystack@.len()
        &&& self.haystack@.len() < usize::MAX
        &&& match self.saved {
            Some(e) => self.start < e && e == self.start + 1 && e <= self.haystack@.len()
                && self.chars@.contains(self.haystack@[self.start as int]),
            None => true,
        }
    }

    /// The pieces not yet handed out.
    pub closed spec fn remaining(&self) -> Seq<Piece> {
        match self.saved {
            Some(e) => seq![Piece::Delimiter(self.haystack@.subrange(self.start as int, e as int))]
                + split_keeping(self.haystack@.skip(e as int), self.chars@),
            None => split_keeping(self.haystack@.skip(self.start as int), self.chars@),
        }
    }

    /// Hands out the next piece.
    pub fn next(&mut self) -> (r: Option<SplitType>)
        requires
            old(self).wf(),
        ensures
            final(self).wf(),
            old(self).remaining().len() == 0 ==> r.is_none() && final(self).remaining().len()
                == 0,
            old(self).remaining().len() > 0 ==> r.is_some() && r->0@ == old(self).remaining()[0]
                && final(self).remaining() == old(self).remaining().drop_first(),
    {
        let len = self.haystack.unicode_len();
        if let Some(end) = self.saved {
            let s = self.haystack.substring_char(self.start, end);
            self.start = end;
            self.saved = None;
            let r = SplitType::Delimiter(s.to_owned());
            proof {
                let rem = old(self).remaining();
                assert(rem.drop_first() =~= self.remaining());
            }
            return Some(r);
        }
        if self.start == len {
            proof {
                assert(self.haystack@.skip(self.start as int) =~= Seq::<char>::empty());
            }
            return None;
        }
        let ghost h = self.haystack@;
        let ghost d = self.chars@;
        let ghost st = self.start as int;
        let mut i: usize = self.start;
        while i < len && !contains_char(self.chars, self.haystack.get_char(i))
            invariant
                st <= i <= len,
                len == h.len(),
                h == self.haystack@,
                d == self.chars@,
                st == self.start,
                forall|j: int| st <= j < i ==> !d.contains(#[trigger] h[j]),
            decreases len - i,
        {
            i = i + 1;
        }
        let ghost rest = h.skip(st);
        let ghost k = i - st;
        proof {
            assert forall|j: int| 0 <= j < k implies !d.contains(#[trigger] rest[j]) by {
                assert(rest[j] == h[st + j]);
            }
            lemma_split_run(rest, d, Seq::empty(), k);
            assert(Seq::<char>::empty() + rest.take(k) =~= h.subrange(st, i as int));
            assert(rest.skip(k) =~= h.skip(i as int));
        }
        if i == len {
            let s = self.haystack.substring_char(self.start, len);
            self.start = len;
            proof {
                assert(h.skip(i as int) =~= Seq::<char>::empty());
                assert(h.skip(self.start as int) =~= Seq::<char>::empty());
            }
            return Some(SplitType::Match(s.to_owned()));
        }
        if i == self.start {
            let s = self.haystack.substring_char(i, i + 1);
            self.start = i + 1;
            proof {
                let t = h.skip(i as int);
                assert(t[0] == h[i as int]);
                assert(t.drop_first() =~= h.skip(i + 1));
                assert(s@ =~= seq![t[0]]);
                assert(flush_run(Seq::<char>::empty()) =~= Seq::<Piece>::empty());
                let tail = split_keeping(h.skip(i + 1), d);
                assert(old(self).remaining() =~= seq![Piece::Delimiter(seq![t[0]])] + tail);
                assert(old(self).remaining().drop_first() =~= tail);
            }
            Some(SplitType::Delimiter(s.to_owned()))
        } else {
            let s = self.haystack.substring_char(self.start, i);
            self.start = i;
            self.saved = Some(i + 1);
            proof {
                let t = h.skip(i as int);
                let run = h.subrange(st, i as int);
                assert(t[0] == h[i as int]);
                assert(t.drop_first() =~= h.skip(i + 1));
                assert(h.subrange(i as int, i + 1) =~= seq![t[0]]);
                let tail = split_keeping(h.skip(i + 1), d);
                assert(old(self).remaining() =~= seq![Piece::Match(run)] + (seq![
                    Piece::Delimiter(seq![t[0]]),
                ] + tail));
                assert(old(self).remaining().drop_first() =~= self.remaining());
            }
            Some(SplitType::Match(s.to_owned()))
        }
    }

    /// All pieces not yet handed out, in order.
    pub fn collect_all(&mut self) -> (r: Vec<SplitType>)
        requires
            old(self).wf(),
        ensures
            pieces(r@) == old(self).remaining(),
    {
        let mut out: Vec<SplitType> = Vec::new();
        let ghost all = self.remaining();
        loop
            invariant
                self.wf(),
                all == old(self).remaining(),
                pieces(out@) + self.remaining() == all,
            decreases self.remaining().len(),
        {
            let ghost before = self.remaining();
            match self.next() {
                Some(p) => {
                    out.push(p);
                    proof {
                        assert(pieces(out@) + self.remaining() =~= all);
                    }
                },
                None => {
                    proof {
                        assert(before =~= Seq::<Piece>::empty());
                        assert(pieces(out@) + before =~= pieces(out@));
                        assert(pieces(out@) + self.remaining() =~= pieces(out@));
                    }
                    return out;
                },
            }
        }
    }
}

/// Whether `c` is one of `chars`.
pub fn contains_char(chars: &[char], c: char) -> (r: bool)
    ensures
        r == chars@.contains(c),
{
    let mut i: usize = 0;
    while i < chars.len()
        invariant
            i <= chars@.len(),
            forall|j: int| 0 <= j < i ==> chars@[j] != c,
        decreases chars@.len() - i,
    {
        if chars[i] == c {
            return true;
        }
        i = i + 1;
    }
    false
}

pub trait SplitKeepingDelimiterExt {
    spec fn text(&self) -> Seq<char>;

    /// Splits the text at every character of `chars`, keeping each delimiter
    /// as a piece of its own.
    fn split_keeping_delimiter<'p>(&'p self, chars: &'p [char]) -> (r: SplitKeepingDelimiter<'p>)
        requires
            self.text().len() < usize::MAX,
        ensures
            r.wf(),
            r.remaining() == split_keeping(self.text(), chars@),
    ;
}

impl SplitKeepingDelimiterExt for str {
    open spec fn text(&self) -> Seq<char> {
        self@
    }

    fn split_keeping_delimiter<'p>(&'p self, chars: &'p [char]) -> (r: SplitKeepingDelimiter<'p>) {
        let r = SplitKeepingDelimiter { haystack: self, chars, start: 0, saved: None };
        proof {
            assert(self@.skip(0) =~= self@);
        }
        r
    }
}

} // verus!
