use vstd::prelude::*;
use vstd::slice::slice_subrange;

use crate::machine::{exec_token, run, token_ok, Token};
use crate::ring::Ring;
use crate::tokenizer::{
    all_short, first_long_line, lines_tokens, parse_all, parse_token, parse_token_spec,
    tokenize_lines, texts, LexError,
};

verus! {

/// Width of a padded line.
pub const LINE_WIDTH: usize = 16;

/// Number of lines a padded melody holds, the title's included.
pub const PADDED_LINES: usize = 17;

/// The `!`-separated segments of a melody text, in order.
pub open spec fn segments(s: Seq<char>) -> Seq<Seq<char>>
    decreases s.len(),
{
    if s.len() == 0 {
        seq![seq![]]
    } else {
        let prev = segments(s.drop_last());
        if s.last() == '!' {
            prev.push(seq![])
        } else {
            prev.update(prev.len() - 1, prev.last().push(s.last()))
        }
    }
}

/// `s` without its trailing run of `c`.
pub open spec fn trim_end(s: Seq<char>, c: char) -> Seq<char>
    decreases s.len(),
{
    if s.len() > 0 && s.last() == c {
        trim_end(s.drop_last(), c)
    } else {
        s
    }
}

/// The lines joined with `!` between them.
pub open spec fn join_bang(ls: Seq<Seq<char>>) -> Seq<char>
    decreases ls.len(),
{
    if ls.len() == 0 {
        seq![]
    } else if ls.len() == 1 {
        ls[0]
    } else {
        join_bang(ls.drop_last()) + seq!['!'] + ls.last()
    }
}

/// The melody text shown for editing: each line loses its trailing pads, the
/// lines are joined with `!`, trailing empty segments are dropped, and an
/// extra `!` leads when there is no title.
pub open spec fn repr_spec(title_absent: bool, lines: Seq<Seq<char>>) -> Seq<char> {
    let body = trim_end(join_bang(lines.map_values(|l: Seq<char>| trim_end(l, '.'))), '!');
    if title_absent {
        seq!['!'] + body
    } else {
        body
    }
}

/// A line cut or padded with `.` to exactly 16 characters.
pub open spec fn pad_line(s: Seq<char>) -> Seq<char> {
    (s + Seq::new(LINE_WIDTH as nat, |i: int| '.')).subrange(0, LINE_WIDTH as int)
}

/// The program, or the first error, for the program lines of a melody.
pub open spec fn compile(lines: Seq<Seq<char>>, muted: Seq<usize>) -> Result<Seq<Token>, LexError> {
    if all_short(lines) {
        parse_all(lines_tokens(lines, muted))
    } else {
        Err(LexError::LineTooLong((choose|i: int| first_long_line(lines, i)) as usize))
    }
}

/// The program lines of a session: every segment after the title.
pub open spec fn program_lines(lines: Seq<String>) -> Seq<Seq<char>> {
    texts(lines).drop_first()
}

/// A playback session: the melody's lines, its title, the parsed program
/// and the register ring that persists from one tick to the next.
pub struct Lexxon {
    /// The `!`-separated segments of the melody; the first is the title.
    pub lines: Vec<String>,
    pub title: Option<String>,
    pub tokens: Vec<Token>,
    pub stack: Ring,
}

proof fn lemma_first_long_line_unique(lines: Seq<Seq<char>>, i: int, j: int)
    requires
        first_long_line(lines, i),
        first_long_line(lines, j),
    ensures
        i == j,
{
    if i < j {
        assert(lines.subrange(0, j)[i] == lines[i]);
    } else if j < i {
        assert(lines.subrange(0, i)[j] == lines[j]);
    }
}

/// Length of `s` once its trailing run of `c` is dropped.
fn trimmed_len(s: &str, c: char) -> (k: usize)
    ensures
        k <= s@.len(),
        s@.subrange(0, k as int) == trim_end(s@, c),
{
    let mut k = s.unicode_len();
    assert(s@.subrange(0, k as int) =~= s@);
    while k > 0 && s.get_char(k - 1) == c
        invariant
            k <= s@.len(),
            trim_end(s@.subrange(0, k as int), c) == trim_end(s@, c),
        decreases k,
    {
        assert(s@.subrange(0, k as int).drop_last() =~= s@.subrange(0, k - 1));
        k = k - 1;
    }
    k
}

impl Lexxon {
    /// The session's invariant: a full ring, at least one segment, and a
    /// program whose literals are masked (any opcode character may run; those
    /// without an operation are no-ops).
    pub open spec fn wf(&self) -> bool {
        &&& self.stack.wf()
        &&& self.lines@.len() >= 1
        &&& forall|i: int| 0 <= i < self.tokens@.len() ==> token_ok(#[trigger] self.tokens@[i])
    }

    /// Splits the melody on `!`; no title is taken yet, the program is empty
    /// and the ring holds 256 zeros.
    pub fn new(melody: String) -> (r: Lexxon)
        ensures
            r.wf(),
            texts(r.lines@) == segments(melody@),
            r.title is None,
            r.tokens@.len() == 0,
            r.stack@ == Seq::new(256, |i: int| 0i32),
    {
        let text = melody.as_str();
        let n = text.unicode_len();
        let mut lines: Vec<String> = Vec::new();
        let mut start: usize = 0;
        let mut i: usize = 0;
        assert(text@.subrange(0, 0) =~= Seq::<char>::empty());
        assert(segments(text@.subrange(0, 0)) =~= texts(lines@).push(text@.subrange(0, 0)));
        while i < n
            invariant
                n == text@.len(),
                start <= i <= n,
                segments(text@.subrange(0, i as int)) == texts(lines@).push(
                    text@.subrange(start as int, i as int),
                ),
            decreases n - i,
        {
            let c = text.get_char(i);
            let ghost cur = text@.subrange(0, i as int + 1);
            assert(cur.drop_last() =~= text@.subrange(0, i as int));
            assert(cur.last() == c);
            if c == '!' {
                let ghost before = lines@;
                lines.push(String::from_str(text.substring_char(start, i)));
                assert(texts(lines@) =~= texts(before).push(text@.subrange(start as int, i as int)));
                start = i + 1;
                assert(text@.subrange(start as int, i as int + 1) =~= Seq::<char>::empty());
                assert(segments(cur) =~= texts(lines@).push(text@.subrange(start as int, i as int + 1)));
            } else {
                assert(text@.subrange(start as int, i as int).push(c) =~= text@.subrange(
                    start as int,
                    i as int + 1,
                ));
                assert(segments(cur) =~= texts(lines@).push(text@.subrange(start as int, i as int + 1)));
            }
            i = i + 1;
        }
        let ghost before = lines@;
        lines.push(String::from_str(text.substring_char(start, n)));
        assert(text@.subrange(0, n as int) =~= text@);
        assert(texts(lines@) =~= texts(before).push(text@.subrange(start as int, n as int)));
        Lexxon { lines, title: None, tokens: Vec::new(), stack: Ring::new() }
    }

    /// Takes the first segment as the title, or no title when it is empty.
    pub fn get_title(&mut self)
        requires
            old(self).wf(),
        ensures
            final(self).wf(),
            final(self).lines == old(self).lines,
            final(self).tokens == old(self).tokens,
            final(self).stack == old(self).stack,
            old(self).lines@[0]@.len() == 0 ==> final(self).title is None,
            old(self).lines@[0]@.len() > 0 ==> final(self).title == Some(old(self).lines@[0]),
    {
        if self.lines[0].as_str().unicode_len() == 0 {
            self.title = None;
        } else {
            self.title = Some(self.lines[0].clone());
        }
    }

    /// Tokenizes the program lines (every segment after the title), leaving
    /// out the lines whose indices are in `muted` (the first program line is
    /// index 0), and parses the tokens into
    /// the session's program. On an error the session is left as it was.
    pub fn get_tokens(&mut self, muted: &[usize]) -> (r: Result<(), LexError>)
        requires
            old(self).wf(),
        ensures
            final(self).wf(),
            match r {
                Ok(()) => compile(program_lines(old(self).lines@), muted@) == Ok::<
                    Seq<Token>,
                    LexError,
                >(final(self).tokens@),
                Err(e) => compile(program_lines(old(self).lines@), muted@) == Err::<
                    Seq<Token>,
                    LexError,
                >(e),
            },
            r is Err ==> final(self).tokens == old(self).tokens,
            final(self).lines == old(self).lines,
            final(self).title == old(self).title,
            final(self).stack == old(self).stack,
    {
        let prog = slice_subrange(self.lines.as_slice(), 1, self.lines.len());
        let ghost pl = program_lines(self.lines@);
        assert(texts(prog@) =~= pl);
        let texts_v = match self.tokenize(prog, muted) {
            Ok(v) => v,
            Err(e) => {
                proof {
                    let i = choose|i: int| first_long_line(pl, i) && e == LexError::LineTooLong(i as usize);
                    let j = choose|j: int| first_long_line(pl, j);
                    lemma_first_long_line_unique(pl, i, j);
                }
                return Err(e);
            },
        };
        let ghost ts = texts(texts_v@);
        let mut out: Vec<Token> = Vec::new();
        let mut k: usize = 0;
        while k < texts_v.len()
            invariant
                *self == *old(self),
                self.wf(),
                pl == program_lines(self.lines@),
                all_short(pl),
                ts == lines_tokens(pl, muted@),
                k <= texts_v@.len(),
                ts == texts(texts_v@),
                parse_all(ts.subrange(0, k as int)) == Ok::<Seq<Token>, LexError>(out@),
                forall|i: int| 0 <= i < out@.len() ==> token_ok(#[trigger] out@[i]),
            decreases texts_v@.len() - k,
        {
            let ghost cur = ts.subrange(0, k as int + 1);
            assert(cur.drop_last() =~= ts.subrange(0, k as int));
            assert(cur.last() == texts_v@[k as int]@);
            match parse_token(texts_v[k].as_str()) {
                Ok(t) => {
                    out.push(t);
                },
                Err(e) => {
                    proof { lemma_parse_all_err(ts, k as int + 1); }
                    assert(ts.subrange(0, ts.len() as int) =~= ts);
                    return Err(e);
                },
            }
            k = k + 1;
        }
        assert(ts.subrange(0, ts.len() as int) =~= ts);
        self.tokens = out;
        Ok(())
    }

    /// The token texts of `lines`, muted lines left out; fails on the first
    /// line longer than 16 characters.
    pub fn tokenize(&self, lines: &[String], muted: &[usize]) -> (r: Result<Vec<String>, LexError>)
        ensures
            match r {
                Ok(toks) => all_short(texts(lines@)) && texts(toks@) == lines_tokens(
                    texts(lines@),
                    muted@,
                ),
                Err(e) => exists|i: int|
                    first_long_line(texts(lines@), i) && e == LexError::LineTooLong(i as usize),
            },
    {
        tokenize_lines(lines, muted)
    }

    /// The melody text for editing: see `repr_spec`.
    pub fn repr(&self) -> (r: String)
        ensures
            r@ == repr_spec(self.title is None, texts(self.lines@)),
    {
        let ghost trimmed = texts(self.lines@).map_values(|l: Seq<char>| trim_end(l, '.'));
        proof { reveal_strlit("!"); }
        let mut joined = String::new();
        let mut i: usize = 0;
        assert(trimmed.subrange(0, 0) =~= Seq::<Seq<char>>::empty());
        while i < self.lines.len()
            invariant
                i <= self.lines@.len(),
                trimmed == texts(self.lines@).map_values(|l: Seq<char>| trim_end(l, '.')),
                joined@ == join_bang(trimmed.subrange(0, i as int)),
            decreases self.lines@.len() - i,
        {
            let line = self.lines[i].as_str();
            let k = trimmed_len(line, '.');
            let ghost cur = trimmed.subrange(0, i as int + 1);
            assert(cur.drop_last() =~= trimmed.subrange(0, i as int));
            assert(cur.last() == line@.subrange(0, k as int));
            let ghost before = joined@;
            if i > 0 {
                let bang = "!";
                proof { reveal_strlit("!"); }
                assert(bang@ =~= seq!['!']);
                joined.append(bang);
                assert(joined@ =~= before + seq!['!']);
            } else {
                assert(joined@ =~= Seq::<char>::empty());
            }
            let ghost mid = joined@;
            joined.append(line.substring_char(0, k));
            assert(joined@ =~= mid + line@.subrange(0, k as int));
            assert(joined@ =~= join_bang(cur));
            i = i + 1;
        }
        assert(trimmed.subrange(0, self.lines@.len() as int) =~= trimmed);
        let k = trimmed_len(joined.as_str(), '!');
        let body = joined.as_str().substring_char(0, k);
        let mut out = String::new();
        if self.title.is_none() {
            let bang = "!";
            assert(bang@ =~= seq!['!']);
            out.append(bang);
        }
        out.append(body);
        assert(out@ =~= repr_spec(self.title is None, texts(self.lines@)));
        out
    }

    /// Pads or cuts the first 17 lines (the title's included) to exactly 16
    /// characters with `.`, adding all-pad lines up to 17.
    pub fn expand(&mut self)
        requires
            old(self).wf(),
        ensures
            final(self).wf(),
            final(self).lines@.len() == if old(self).lines@.len() > PADDED_LINES {
                old(self).lines@.len()
            } else {
                PADDED_LINES as nat
            },
            forall|i: int|
                0 <= i < PADDED_LINES ==> (#[trigger] final(self).lines@[i])@ == pad_line(
                    if i < old(self).lines@.len() {
                        old(self).lines@[i]@
                    } else {
                        Seq::<char>::empty()
                    },
                ),
            forall|i: int|
                PADDED_LINES <= i < old(self).lines@.len() ==> #[trigger] final(self).lines@[i]
                    == old(self).lines@[i],
            final(self).title == old(self).title,
            final(self).tokens == old(self).tokens,
            final(self).stack == old(self).stack,
    {
        proof { reveal_strlit("................"); }
        let dots = "................";
        assert(dots@ =~= Seq::new(LINE_WIDTH as nat, |i: int| '.'));
        let mut i: usize = 0;
        while i < PADDED_LINES
            invariant
                self.wf(),
                dots@ == Seq::new(LINE_WIDTH as nat, |i: int| '.'),
                i <= PADDED_LINES,
                self.lines@.len() == if old(self).lines@.len() > i {
                    old(self).lines@.len()
                } else {
                    i as nat
                },
                forall|j: int|
                    0 <= j < i ==> (#[trigger] self.lines@[j])@ == pad_line(
                        if j < old(self).lines@.len() {
                            old(self).lines@[j]@
                        } else {
                            Seq::<char>::empty()
                        },
                    ),
                forall|j: int| i <= j < old(self).lines@.len() ==> #[trigger] self.lines@[j] == old(self).lines@[j],
                self.title == old(self).title,
                self.tokens == old(self).tokens,
                self.stack == old(self).stack,
            decreases PADDED_LINES - i,
        {
            if i < self.lines.len() {
                let mut temp = self.lines[i].clone();
                temp.append(dots);
                let cut = String::from_str(temp.as_str().substring_char(0, LINE_WIDTH));
                self.lines.set(i, cut);
            } else {
                let line = String::from_str(dots);
                assert(line@ =~= pad_line(Seq::<char>::empty()));
                self.lines.push(line);
            }
            i = i + 1;
        }
    }

    /// Refills the ring with 256 zeros.
    pub fn reset_stack(&mut self)
        requires
            old(self).wf(),
        ensures
            final(self).wf(),
            final(self).stack@ == Seq::new(256, |i: int| 0i32),
            final(self).lines == old(self).lines,
            final(self).title == old(self).title,
            final(self).tokens == old(self).tokens,
    {
        self.stack = Ring::new();
    }

    /// Runs the whole program once at time `t` and returns the value on top
    /// of the ring.
    pub fn compute(&mut self, t: i32) -> (r: i32)
        requires
            old(self).wf(),
        ensures
            final(self).wf(),
            final(self).stack@ == run(old(self).stack@, old(self).tokens@, t),
            r == final(self).stack@.last(),
            final(self).lines == old(self).lines,
            final(self).title == old(self).title,
            final(self).tokens == old(self).tokens,
    {
        let mut k: usize = 0;
        while k < self.tokens.len()
            invariant
                self.wf(),
                k <= self.tokens@.len(),
                self.tokens == old(self).tokens,
                self.lines == old(self).lines,
                self.title == old(self).title,
                self.stack@ == run(old(self).stack@, self.tokens@.subrange(0, k as int), t),
            decreases self.tokens@.len() - k,
        {
            let tok = self.tokens[k];
            assert(token_ok(self.tokens@[k as int]));
            exec_token(&mut self.stack, tok, t);
            assert(self.tokens@.subrange(0, k as int + 1).drop_last() =~= self.tokens@.subrange(0, k as int));
            k = k + 1;
        }
        assert(self.tokens@.subrange(0, self.tokens@.len() as int) =~= self.tokens@);
        self.stack.back()
    }

    /// Runs one tick at time `t` and returns the emitted sample: the low
    /// byte of the value on top of the ring.
    pub fn sample(&mut self, t: i32) -> (r: u8)
        requires
            old(self).wf(),
        ensures
            final(self).wf(),
            final(self).stack@ == run(old(self).stack@, old(self).tokens@, t),
            r == final(self).stack@.last() % 256,
            final(self).lines == old(self).lines,
            final(self).title == old(self).title,
            final(self).tokens == old(self).tokens,
    {
        let v = self.compute(t);
        proof { self.stack.lemma_view(); }
        (v % 256) as u8
    }

    /// Starts a session in one step: splits the melody, takes the title,
    /// builds the program with the lines in `muted` left out, and zeroes the ring.
    pub fn parse(melody: String, muted: &[usize]) -> (r: Result<Lexxon, LexError>)
        ensures
            match r {
                Ok(lex) => {
                    &&& lex.wf()
                    &&& texts(lex.lines@) == segments(melody@)
                    &&& compile(segments(melody@).drop_first(), muted@) == Ok::<
                        Seq<Token>,
                        LexError,
                    >(lex.tokens@)
                    &&& (segments(melody@)[0].len() == 0 ==> lex.title is None)
                    &&& (segments(melody@)[0].len() > 0 ==> (lex.title matches Some(t) && t@
                        == segments(melody@)[0]))
                    &&& lex.stack@ == Seq::new(256, |i: int| 0i32)
                },
                Err(e) => compile(segments(melody@).drop_first(), muted@) == Err::<
                    Seq<Token>,
                    LexError,
                >(e),
            },
    {
        let mut lex = Lexxon::new(melody);
        lex.get_title();
        match lex.get_tokens(muted) {
            Ok(()) => {
                lex.reset_stack();
                Ok(lex)
            },
            Err(e) => Err(e),
        }
    }
}

proof fn lemma_parse_all_err(ts: Seq<Seq<char>>, k: int)
    requires
        0 < k <= ts.len(),
        parse_all(ts.subrange(0, k - 1)) is Ok,
        parse_token_spec(ts[k - 1]) is Err,
    ensures
        parse_all(ts) == Err::<Seq<Token>, LexError>(parse_token_spec(ts[k - 1])->Err_0),
    decreases ts.len(),
{
    if k == ts.len() {
        assert(ts.drop_last() =~= ts.subrange(0, k - 1));
    } else {
        assert(ts.drop_last().subrange(0, k - 1) =~= ts.subrange(0, k - 1));
        assert(ts.drop_last()[k - 1] == ts[k - 1]);
        lemma_parse_all_err(ts.drop_last(), k);
    }
}

} // verus!
