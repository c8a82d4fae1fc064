use vstd::prelude::*;

use crate::machine::{is_opcode, token_ok, Token};
use crate::ring::MASK;

verus! {

/// Longest program line accepted, in characters.
pub const MAX_LINE_LEN: usize = 16;

/// Why a melody cannot be turned into a program.
#[derive(PartialEq, Eq, Structural, Clone, Copy, Debug)]
pub enum LexError {
    /// The program line at this index (the title not counted) is longer than 16 characters.
    LineTooLong(usize),
    /// A run of hexadecimal digits whose value does not fit in 31 bits.
    NumberOutOfRange,
    /// A character that is neither a hexadecimal digit, the pad `.`, nor an opcode.
    InvalidToken,
}

/// The hexadecimal digits: `0` to `9` and the capitals `A` to `F`.
pub open spec fn is_hex_digit(c: char) -> bool {
    ('0' <= c && c <= '9') || ('A' <= c && c <= 'F')
}

pub open spec fn hex_digit_value(c: char) -> nat {
    if '0' <= c && c <= '9' {
        (c as u32 - '0' as u32) as nat
    } else {
        (c as u32 - 'A' as u32 + 10) as nat
    }
}

/// The value of a run of hexadecimal digits, read in base 16.
pub open spec fn hex_value(s: Seq<char>) -> nat
    decreases s.len(),
{
    if s.len() == 0 {
        0
    } else {
        hex_value(s.drop_last()) * 16 + hex_digit_value(s.last())
    }
}

/// The token texts of one line, scanned left to right: a hexadecimal digit
/// right after another extends the current number, `.` yields nothing, and
/// any other character starts a token of its own.
pub open spec fn line_tokens(s: Seq<char>) -> Seq<Seq<char>>
    decreases s.len(),
{
    if s.len() == 0 {
        seq![]
    } else {
        let prev = line_tokens(s.drop_last());
        let c = s.last();
        if is_hex_digit(c) && s.len() >= 2 && is_hex_digit(s[s.len() - 2]) {
            prev.update(prev.len() - 1, prev.last().push(c))
        } else if c == '.' {
            prev
        } else {
            prev.push(seq![c])
        }
    }
}

/// The token texts of the program lines in order, muted lines left out.
pub open spec fn lines_tokens(lines: Seq<Seq<char>>, muted: Seq<usize>) -> Seq<Seq<char>>
    decreases lines.len(),
{
    if lines.len() == 0 {
        seq![]
    } else {
        let i = (lines.len() - 1) as usize;
        let rest = lines_tokens(lines.drop_last(), muted);
        if muted.contains(i) {
            rest
        } else {
            rest + line_tokens(lines.last())
        }
    }
}

/// Every line is at most 16 characters long.
pub open spec fn all_short(lines: Seq<Seq<char>>) -> bool {
    forall|j: int| 0 <= j < lines.len() ==> (#[trigger] lines[j]).len() <= MAX_LINE_LEN
}

/// Line `i` is the first one longer than 16 characters.
pub open spec fn first_long_line(lines: Seq<Seq<char>>, i: int) -> bool {
    &&& 0 <= i < lines.len()
    &&& lines[i].len() > MAX_LINE_LEN
    &&& all_short(lines.subrange(0, i))
}

/// The texts of a sequence of strings.
pub open spec fn texts(v: Seq<String>) -> Seq<Seq<char>> {
    v.map_values(|s: String| s@)
}

/// The token for one text: a masked hexadecimal literal, or an opcode.
pub open spec fn parse_token_spec(s: Seq<char>) -> Result<Token, LexError> {
    if s.len() > 0 && forall|i: int| 0 <= i < s.len() ==> is_hex_digit(#[trigger] s[i]) {
        if hex_value(s) <= MASK {
            Ok(Token::Number(hex_value(s) as i32))
        } else {
            Err(LexError::NumberOutOfRange)
        }
    } else if s.len() == 1 && is_opcode(s[0]) {
        Ok(Token::Opcode(s[0]))
    } else {
        Err(LexError::InvalidToken)
    }
}

/// The tokens for a sequence of texts, or the error of the first that fails.
pub open spec fn parse_all(ts: Seq<Seq<char>>) -> Result<Seq<Token>, LexError>
    decreases ts.len(),
{
    if ts.len() == 0 {
        Ok(seq![])
    } else {
        match parse_all(ts.drop_last()) {
            Err(e) => Err(e),
            Ok(p) => match parse_token_spec(ts.last()) {
                Err(e) => Err(e),
                Ok(t) => Ok(p.push(t)),
            },
        }
    }
}

proof fn lemma_line_tokens_nonempty(s: Seq<char>)
    requires
        s.len() > 0,
        is_hex_digit(s.last()),
    ensures
        line_tokens(s).len() > 0,
    decreases s.len(),
{
    if is_hex_digit(s.last()) && s.len() >= 2 && is_hex_digit(s[s.len() - 2]) {
        lemma_line_tokens_nonempty(s.drop_last());
    }
}

proof fn lemma_hex_prefix(s: Seq<char>, k: int)
    requires
        0 <= k <= s.len(),
    ensures
        hex_value(s.subrange(0, k)) <= hex_value(s),
    decreases s.len(),
{
    if k < s.len() {
        assert(s.drop_last().subrange(0, k) =~= s.subrange(0, k));
        lemma_hex_prefix(s.drop_last(), k);
    } else {
        assert(s.subrange(0, k) =~= s);
    }
}

/// A token text: a non-empty run of hexadecimal digits, or one character
/// that is neither a digit nor the pad.
pub open spec fn token_shape(tok: Seq<char>) -> bool {
    ||| (tok.len() > 0 && forall|i: int| 0 <= i < tok.len() ==> is_hex_digit(#[trigger] tok[i]))
    ||| (tok.len() == 1 && !is_hex_digit(tok[0]) && tok[0] != '.')
}

/// The token texts joined end to end.
pub open spec fn flatten(ts: Seq<Seq<char>>) -> Seq<char>
    decreases ts.len(),
{
    if ts.len() == 0 {
        seq![]
    } else {
        flatten(ts.drop_last()) + ts.last()
    }
}

/// The line with every pad `.` dropped.
pub open spec fn without_pads(s: Seq<char>) -> Seq<char> {
    s.filter(|c: char| c != '.')
}

/// Every token of a line is a run of hexadecimal digits or a single other
/// character; in particular no token holds a pad, and a digit never shares a
/// token with an opcode.
pub proof fn lemma_token_shape(s: Seq<char>)
    ensures
        forall|k: int| 0 <= k < line_tokens(s).len() ==> token_shape(#[trigger] line_tokens(s)[k]),
        forall|k: int| 0 <= k < line_tokens(s).len() ==> !(#[trigger] line_tokens(s)[k]).contains('.'),
    decreases s.len(),
{
    if s.len() > 0 {
        lemma_token_shape(s.drop_last());
        let prev = line_tokens(s.drop_last());
        let c = s.last();
        if is_hex_digit(c) && s.len() >= 2 && is_hex_digit(s[s.len() - 2]) {
            lemma_line_tokens_nonempty(s.drop_last());
            let last = prev.last();
            assert(s.drop_last().last() == s[s.len() - 2]);
            lemma_last_token_hex(s.drop_last());
            assert forall|i: int| 0 <= i < last.push(c).len() implies is_hex_digit(#[trigger] last.push(c)[i]) by {
                if i < last.len() {
                    assert(last.push(c)[i] == last[i]);
                }
            }
        }
    }
    let ts = line_tokens(s);
    assert forall|k: int| 0 <= k < ts.len() implies !(#[trigger] ts[k]).contains('.') by {
        if ts[k].contains('.') {
            let j = choose|j: int| 0 <= j < ts[k].len() && ts[k][j] == '.';
            assert(token_shape(ts[k]));
        }
    }
}

proof fn lemma_last_token_hex(s: Seq<char>)
    requires
        s.len() > 0,
        is_hex_digit(s.last()),
    ensures
        line_tokens(s).len() > 0,
        forall|i: int|
            0 <= i < line_tokens(s).last().len() ==> is_hex_digit(#[trigger] line_tokens(s).last()[i]),
        line_tokens(s).last().len() > 0,
    decreases s.len(),
{
    lemma_line_tokens_nonempty(s);
    if s.len() >= 2 && is_hex_digit(s[s.len() - 2]) {
        assert(s.drop_last().last() == s[s.len() - 2]);
        lemma_last_token_hex(s.drop_last());
        let last = line_tokens(s.drop_last()).last();
        assert forall|i: int| 0 <= i < last.push(s.last()).len() implies is_hex_digit(
            #[trigger] last.push(s.last())[i],
        ) by {
            if i < last.len() {
                assert(last.push(s.last())[i] == last[i]);
            }
        }
    }
}

/// Joined end to end, the tokens of a line give back the line without its pads.
pub proof fn lemma_tokens_rejoin(s: Seq<char>)
    ensures
        flatten(line_tokens(s)) == without_pads(s),
    decreases s.len(),
{
    reveal_with_fuel(Seq::filter, 1);
    if s.len() > 0 {
        lemma_tokens_rejoin(s.drop_last());
        let prev = line_tokens(s.drop_last());
        let c = s.last();
        assert(without_pads(s) == if c != '.' {
            without_pads(s.drop_last()).push(c)
        } else {
            without_pads(s.drop_last())
        });
        if is_hex_digit(c) && s.len() >= 2 && is_hex_digit(s[s.len() - 2]) {
            lemma_line_tokens_nonempty(s.drop_last());
            let cur = prev.update(prev.len() - 1, prev.last().push(c));
            assert(cur.drop_last() =~= prev.drop_last());
            assert(flatten(prev) == flatten(prev.drop_last()) + prev.last());
            assert(flatten(cur) =~= flatten(prev).push(c));
        } else if c == '.' {
        } else {
            let cur = prev.push(seq![c]);
            assert(cur.drop_last() =~= prev);
            assert(flatten(cur) =~= flatten(prev).push(c));
        }
    }
}

/// Hexadecimal digits fuse: a run of digits `q` written right after a line
/// `p` that ends in a digit extends the last number of `p` by `q` and adds
/// no token.
pub proof fn lemma_digits_fuse(p: Seq<char>, q: Seq<char>)
    requires
        p.len() > 0,
        is_hex_digit(p.last()),
        forall|i: int| 0 <= i < q.len() ==> is_hex_digit(#[trigger] q[i]),
    ensures
        line_tokens(p).len() > 0,
        line_tokens(p + q) == line_tokens(p).update(
            line_tokens(p).len() - 1,
            line_tokens(p).last() + q,
        ),
    decreases q.len(),
{
    lemma_line_tokens_nonempty(p);
    let lp = line_tokens(p);
    if q.len() == 0 {
        assert(p + q =~= p);
        assert(lp.last() + q =~= lp.last());
        assert(lp.update(lp.len() - 1, lp.last() + q) =~= lp);
    } else {
        let pq = p + q;
        let q0 = q.drop_last();
        assert(pq.drop_last() =~= p + q0);
        assert(pq.last() == q.last());
        assert(is_hex_digit(q.last()));
        assert forall|i: int| 0 <= i < q0.len() implies is_hex_digit(#[trigger] q0[i]) by {
            assert(q0[i] == q[i]);
        }
        lemma_digits_fuse(p, q0);
        if q.len() >= 2 {
            assert(pq[pq.len() - 2] == q[q.len() - 2]);
        } else {
            assert(pq[pq.len() - 2] == p.last());
        }
        assert((lp.last() + q0).push(q.last()) =~= lp.last() + q);
        let prev = lp.update(lp.len() - 1, lp.last() + q0);
        assert(prev.update(prev.len() - 1, prev.last().push(q.last())) =~= lp.update(
            lp.len() - 1,
            lp.last() + q,
        ));
    }
}

/// Removing a pad leaves the tokens unchanged, unless that pad is the only
/// thing between two hexadecimal digits (then it ends one number and the
/// next starts).
pub proof fn lemma_pad_removal(s: Seq<char>, i: int)
    requires
        0 <= i < s.len(),
        s[i] == '.',
        !(0 < i && i + 1 < s.len() && is_hex_digit(s[i - 1]) && is_hex_digit(s[i + 1])),
    ensures
        line_tokens(s.remove(i)) == line_tokens(s),
    decreases s.len(),
{
    let r = s.remove(i);
    if i == s.len() - 1 {
        assert(r =~= s.drop_last());
    } else {
        let d = s.drop_last();
        assert(r.drop_last() =~= d.remove(i));
        assert(r.last() == s.last());
        lemma_pad_removal(d, i);
        if i == s.len() - 2 {
            assert(r.len() >= 2 ==> r[r.len() - 2] == s[i - 1]);
        } else {
            assert(r[r.len() - 2] == s[s.len() - 2]);
        }
    }
}

/// Appends the token texts of `line` to `tokens`.
fn tokenize_line(line: &str, tokens: &mut Vec<String>)
    requires
        line@.len() <= MAX_LINE_LEN,
    ensures
        texts(final(tokens)@) == texts(old(tokens)@) + line_tokens(line@),
{
    let n = line.unicode_len();
    let mut i: usize = 0;
    while i < n
        invariant
            n == line@.len(),
            i <= n,
            texts(tokens@) == texts(old(tokens)@) + line_tokens(line@.subrange(0, i as int)),
        decreases n - i,
    {
        let c = line.get_char(i);
        let piece = line.substring_char(i, i + 1);
        let ghost pre = line@.subrange(0, i as int);
        let ghost cur = line@.subrange(0, i as int + 1);
        assert(cur.drop_last() =~= pre);
        assert(cur.last() == c);
        assert(piece@ =~= seq![c]);
        assert(i >= 1 ==> cur[i - 1] == line@[i - 1]);
        if is_hex_digit_exec(c) && i >= 1 && is_hex_digit_exec(line.get_char(i - 1)) {
            proof {
                assert(pre.last() == line@[i - 1]);
                lemma_line_tokens_nonempty(pre);
            }
            let ghost before = tokens@;
            assert(texts(before).len() == before.len());
            let mut last = tokens.pop().unwrap();
            let ghost prev_text = last@;
            last.append(piece);
            assert(last@ =~= prev_text.push(c));
            tokens.push(last);
            proof {
                assert(tokens@ =~= before.update(before.len() - 1, last));
                let lt = line_tokens(pre);
                assert(texts(before) =~= texts(old(tokens)@) + lt);
                assert(prev_text == texts(before).last());
                assert(prev_text == lt.last());
                assert(line_tokens(cur) == lt.update(lt.len() - 1, lt.last().push(c)));
                assert(texts(tokens@) =~= texts(before).update(before.len() - 1, prev_text.push(c)));
                let o = texts(old(tokens)@);
                assert(o.len() + lt.len() == before.len());
                assert(o + lt.update(lt.len() - 1, lt.last().push(c)) =~= (o + lt).update(
                    before.len() - 1,
                    prev_text.push(c),
                ));
            }
            assert(texts(tokens@) =~= texts(old(tokens)@) + line_tokens(cur));
        } else if c == '.' {
            assert(texts(tokens@) =~= texts(old(tokens)@) + line_tokens(cur));
        } else {
            let ghost before = tokens@;
            tokens.push(String::from_str(piece));
            assert(texts(tokens@) =~= texts(before).push(seq![c]));
            assert(texts(tokens@) =~= texts(old(tokens)@) + line_tokens(cur));
        }
        i = i + 1;
    }
    assert(line@.subrange(0, n as int) =~= line@);
}

fn is_hex_digit_exec(c: char) -> (b: bool)
    ensures
        b == is_hex_digit(c),
{
    ('0' <= c && c <= '9') || ('A' <= c && c <= 'F')
}

fn is_opcode_exec(c: char) -> (b: bool)
    ensures
        b == is_opcode(c),
{
    ('a' <= c && c <= 'u') || ('G' <= c && c <= 'Z')
}

fn is_muted(muted: &[usize], i: usize) -> (b: bool)
    ensures
        b == muted@.contains(i),
{
    let mut k: usize = 0;
    while k < muted.len()
        invariant
            k <= muted@.len(),
            forall|j: int| 0 <= j < k ==> muted@[j] != i,
        decreases muted@.len() - k,
    {
        if muted[k] == i {
            return true;
        }
        k = k + 1;
    }
    false
}

/// Tokenizes program lines: every line is checked for length first, then the
/// unmuted ones are scanned in order.
pub(crate) fn tokenize_lines(lines: &[String], muted: &[usize]) -> (r: Result<Vec<String>, LexError>)
    ensures
        match r {
            Ok(toks) => all_short(texts(lines@)) && texts(toks@) == lines_tokens(
                texts(lines@),
                muted@,
            ),
            Err(e) => exists|i: int|
                first_long_line(texts(lines@), i) && e == LexError::LineTooLong(i as usize),
        },
{
    let ghost ls = texts(lines@);
    let mut k: usize = 0;
    while k < lines.len()
        invariant
            k <= lines@.len(),
            ls == texts(lines@),
            all_short(ls.subrange(0, k as int)),
        decreases lines@.len() - k,
    {
        if lines[k].as_str().unicode_len() > MAX_LINE_LEN {
            assert(first_long_line(ls, k as int));
            return Err(LexError::LineTooLong(k));
        }
        assert(all_short(ls.subrange(0, k as int + 1))) by {
            assert forall|j: int| 0 <= j < k + 1 implies (#[trigger] ls.subrange(0, k as int + 1)[j]).len() <= MAX_LINE_LEN by {
                if j < k {
                    assert(ls.subrange(0, k as int + 1)[j] == ls.subrange(0, k as int)[j]);
                }
            }
        }
        k = k + 1;
    }
    assert(ls.subrange(0, lines@.len() as int) =~= ls);
    let mut tokens: Vec<String> = Vec::new();
    let mut i: usize = 0;
    while i < lines.len()
        invariant
            i <= lines@.len(),
            ls == texts(lines@),
            all_short(ls),
            texts(tokens@) == lines_tokens(ls.subrange(0, i as int), muted@),
        decreases lines@.len() - i,
    {
        let ghost pre = ls.subrange(0, i as int);
        let ghost cur = ls.subrange(0, i as int + 1);
        assert(cur.drop_last() =~= pre);
        assert(cur.last() == ls[i as int]);
        if !is_muted(muted, i) {
            assert(ls[i as int].len() <= MAX_LINE_LEN);
            tokenize_line(lines[i].as_str(), &mut tokens);
        }
        i = i + 1;
    }
    assert(ls.subrange(0, lines@.len() as int) =~= ls);
    Ok(tokens)
}

/// Parses one token text.
pub fn parse_token(text: &str) -> (r: Result<Token, LexError>)
    ensures
        r == parse_token_spec(text@),
        r matches Ok(t) ==> token_ok(t),
{
    let n = text.unicode_len();
    if n == 0 {
        return Err(LexError::InvalidToken);
    }
    let mut k: usize = 0;
    while k < n
        invariant
            n == text@.len(),
            k <= n,
            forall|j: int| 0 <= j < k ==> is_hex_digit(#[trigger] text@[j]),
        decreases n - k,
    {
        if !is_hex_digit_exec(text.get_char(k)) {
            let c0 = text.get_char(0);
            if n == 1 && is_opcode_exec(c0) {
                return Ok(Token::Opcode(c0));
            }
            return Err(LexError::InvalidToken);
        }
        k = k + 1;
    }
    let mut acc: u64 = 0;
    let mut i: usize = 0;
    while i < n
        invariant
            n == text@.len(),
            i <= n,
            forall|j: int| 0 <= j < n ==> is_hex_digit(#[trigger] text@[j]),
            acc == hex_value(text@.subrange(0, i as int)),
            acc <= MASK,
        decreases n - i,
    {
        let c = text.get_char(i);
        let d: u64 = if '0' <= c && c <= '9' {
            (c as u32 - '0' as u32) as u64
        } else {
            (c as u32 - 'A' as u32 + 10) as u64
        };
        let ghost cur = text@.subrange(0, i as int + 1);
        assert(cur.drop_last() =~= text@.subrange(0, i as int));
        acc = acc * 16 + d;
        assert(acc == hex_value(cur));
        if acc > MASK as u64 {
            proof { lemma_hex_prefix(text@, i as int + 1); }
            return Err(LexError::NumberOutOfRange);
        }
        i = i + 1;
    }
    assert(text@.subrange(0, n as int) =~= text@);
    Ok(Token::Number(acc as i32))
}

} // verus!
