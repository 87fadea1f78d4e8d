//! The lexer: turns YAML text into tokens, one at a time or all at once.
pub mod token;
pub mod model;

use vstd::prelude::*;
use vstd::string::*;
use crate::error::{YamlError, YamlErrorView};
use crate::text::{push_char, write_decimal};
use token::{SpannedToken, SpannedView, Token, TokenView};
use model::{
    char_at, col_at, depth_message, double_quoted, lemma_next_token_progress,
    lemma_skip_comment_bounds, line_at, line_end, next_is_ws, next_token, plain_scalar, prev_is_ws,
    scalar_end, single_quoted, skip_comment, spaces_end, spanned, starts_with, tokens_from,
    trim_end_pos, trim_start_pos, is_unicode_ws, Step,
};

pub use model::MAX_DEPTH;

verus! {

/// The view of what one lexing step returned.
pub open spec fn step_view<'a>(r: Result<SpannedToken<'a>, YamlError>) -> Result<
    SpannedView,
    YamlErrorView,
> {
    match r {
        Ok(t) => Ok(t@),
        Err(e) => Err(e@),
    }
}

/// What one lexing step from `p` in `s` is specified to return.
pub open spec fn step_outcome(s: Seq<char>, st: Step) -> Result<SpannedView, YamlErrorView> {
    match st.1 {
        Ok(t) => Ok(spanned(s, st.0, t)),
        Err(m) => Err(YamlErrorView::ParseError(m)),
    }
}

/// The views of a sequence of spanned tokens.
pub open spec fn spans_view<'a>(v: Seq<SpannedToken<'a>>) -> Seq<SpannedView> {
    v.map_values(|t: SpannedToken<'a>| t@)
}

/// The view of what tokenizing returned.
pub open spec fn tokens_view<'a>(r: Result<Vec<SpannedToken<'a>>, YamlError>) -> Result<
    Seq<SpannedView>,
    YamlErrorView,
> {
    match r {
        Ok(v) => Ok(spans_view(v@)),
        Err(e) => Err(e@),
    }
}

/// What tokenizing from `p` in `s` is specified to return.
pub open spec fn tokens_outcome(s: Seq<char>, p: int) -> Result<Seq<SpannedView>, YamlErrorView> {
    match tokens_from(s, p, Seq::empty()).1 {
        Ok(ts) => Ok(ts),
        Err(m) => Err(YamlErrorView::ParseError(m)),
    }
}

pub proof fn lemma_line_col_bounds(s: Seq<char>, p: int)
    requires
        0 <= p,
    ensures
        1 <= line_at(s, p) <= p + 1,
        1 <= col_at(s, p) <= p + 1,
    decreases p,
{
    if p > 0 {
        lemma_line_col_bounds(s, p - 1);
    }
}

/// Unicode white space (`char::is_whitespace`).
pub fn is_unicode_whitespace(c: char) -> (b: bool)
    ensures
        b == is_unicode_ws(c),
{
    let u: u32 = c as u32;
    (9 <= u && u <= 13) || u == 32 || u == 0x85 || u == 0xA0 || u == 0x1680 || (0x2000 <= u && u
        <= 0x200A) || u == 0x2028 || u == 0x2029 || u == 0x202F || u == 0x205F || u == 0x3000
}

fn depth_error() -> (e: YamlError)
    ensures
        e@ == YamlErrorView::ParseError(depth_message()),
{
    let mut m = String::from_str("exceeded max nesting depth of ");
    write_decimal(&mut m, MAX_DEPTH as u64);
    YamlError::ParseError(m)
}

/// A lexer over one text, with its position and the line and column of that position.
pub struct Lexer<'a> {
    input: &'a str,
    chars: Vec<char>,
    pos: usize,
    line: usize,
    col: usize,
}

impl<'a> Lexer<'a> {
    /// The text being read.
    pub closed spec fn text(&self) -> Seq<char> {
        self.chars@
    }

    /// How many characters have been read.
    pub closed spec fn position(&self) -> int {
        self.pos as int
    }

    /// The line the lexer stands on, counted from 1.
    pub closed spec fn line_number(&self) -> int {
        self.line as int
    }

    /// The column the lexer stands on, counted from 1.
    pub closed spec fn column(&self) -> int {
        self.col as int
    }

    /// The lexer reads its input, stands within it, and its line and column
    /// are those of its position.
    pub closed spec fn wf(&self) -> bool {
        &&& self.input@ == self.chars@
        &&& self.pos <= self.chars.len()
        &&& self.chars.len() < usize::MAX
        &&& self.line as int == line_at(self.chars@, self.pos as int)
        &&& self.col as int == col_at(self.chars@, self.pos as int)
    }

    /// A well-formed lexer stands within its text, on the line and column of its position.
    pub proof fn lemma_wf(&self)
        requires
            self.wf(),
        ensures
            0 <= self.position() <= self.text().len(),
            self.line_number() == line_at(self.text(), self.position()),
            self.column() == col_at(self.text(), self.position()),
    {
    }

    /// A lexer at the start of `input`.
    pub fn new(input: &'a str) -> (l: Self)
        requires
            input@.len() < usize::MAX,
        ensures
            l.wf(),
            l.text() == input@,
            l.position() == 0,
    {
        let mut chars: Vec<char> = Vec::new();
        for c in it: input.chars()
            invariant
                chars@ == it.seq().take(it.index() as int),
        {
            chars.push(c);
        }
        assert(chars@ == input@);
        Lexer { input, chars, pos: 0, line: 1, col: 1 }
    }

    /// Reads every token to the end of the text and closes the list with `Eof`;
    /// stops at the first error.
    pub fn tokenize(&mut self) -> (res: Result<Vec<SpannedToken<'a>>, YamlError>)
        requires
            old(self).wf(),
        ensures
            final(self).wf(),
            final(self).text() == old(self).text(),
            final(self).position() == tokens_from(old(self).text(), old(self).position(), Seq::empty()).0,
            tokens_view(res) == tokens_outcome(old(self).text(), old(self).position()),
    {
        let ghost s = self.text();
        let ghost p0 = self.position();
        let mut tokens: Vec<SpannedToken<'a>> = Vec::new();
        assert(spans_view(tokens@) =~= Seq::empty());
        while !self.is_eof()
            invariant
                self.wf(),
                self.text() == s,
                s == old(self).text(),
                p0 == old(self).position(),
                tokens_from(s, self.position(), spans_view(tokens@)) == tokens_from(s, p0, Seq::empty()),
            decreases s.len() - self.position(),
        {
            let ghost p = self.position();
            proof {
                lemma_next_token_progress(s, p);
            }
            match self.next_token() {
                Ok(token) => {
                    let ghost before = tokens@;
                    tokens.push(token);
                    assert(spans_view(tokens@) =~= spans_view(before).push(token@));
                },
                Err(e) => {
                    return Err(e);
                },
            }
        }
        let eof = self.make_token(Token::Eof);
        let ghost before = tokens@;
        tokens.push(eof);
        assert(spans_view(tokens@) =~= spans_view(before).push(eof@));
        Ok(tokens)
    }

    /// The next token, or `None` at the end of the text.
    pub fn next(&mut self) -> (res: Option<Result<SpannedToken<'a>, YamlError>>)
        requires
            old(self).wf(),
        ensures
            final(self).wf(),
            final(self).text() == old(self).text(),
            old(self).position() >= old(self).text().len() ==> res is None && final(self).position()
                == old(self).position(),
            old(self).position() < old(self).text().len() ==> {
                &&& res matches Some(r)
                &&& step_view(r) == step_outcome(
                    old(self).text(),
                    next_token(old(self).text(), old(self).position()),
                )
                &&& final(self).position() == next_token(old(self).text(), old(self).position()).0
            },
    {
        if self.is_eof() {
            return None;
        }
        Some(self.next_token())
    }

    fn next_token(&mut self) -> (res: Result<SpannedToken<'a>, YamlError>)
        requires
            old(self).wf(),
        ensures
            final(self).wf(),
            final(self).text() == old(self).text(),
            final(self).position() == next_token(old(self).text(), old(self).position()).0,
            step_view(res) == step_outcome(
                old(self).text(),
                next_token(old(self).text(), old(self).position()),
            ),
            old(self).position() < old(self).text().len() ==> final(self).position() > old(
                self,
            ).position(),
            step_view(res) matches Ok(x) && x.token is Eof ==> final(self).position()
                == old(self).text().len(),
        decreases old(self).text().len() - old(self).position(),
    {
        let ghost s = self.text();
        let ghost p = self.position();
        proof {
            reveal_strlit("---");
            reveal_strlit("...");
            lemma_skip_comment_bounds(s, p);
            crate::laws::law_next_token_step(s, p);
        }
        self.skip_comment();
        if self.is_eof() {
            return Ok(self.make_token(Token::Eof));
        }
        let c = self.current_char();
        if c == '\n' {
            self.advance();
            return Ok(self.make_token(Token::Newline));
        }
        if c == '-' && self.peek_is("---") {
            self.advance_by(3);
            return Ok(self.make_token(Token::DocStart));
        }
        if c == '.' && self.peek_is("...") {
            self.advance_by(3);
            return Ok(self.make_token(Token::DocEnd));
        }
        if c == '-' && self.next_is_whitespace() {
            self.advance();
            return Ok(self.make_token(Token::Dash));
        }
        if c == ':' && self.next_is_whitespace() {
            self.advance();
            return Ok(self.make_token(Token::Colon));
        }
        if c == ' ' && self.col == 1 {
            let count = self.count_indent();
            if count > MAX_DEPTH * 2 {
                return Err(depth_error());
            }
            return Ok(self.make_token(Token::Indent(count)));
        }
        if c == ' ' || c == '\t' {
            self.advance();
            return self.next_token();
        }
        if c == '\'' {
            return self.read_single_quoted();
        }
        if c == '"' {
            return self.read_double_quoted();
        }
        self.read_scalar()
    }

    fn read_single_quoted(&mut self) -> (res: Result<SpannedToken<'a>, YamlError>)
        requires
            old(self).wf(),
            old(self).position() < old(self).text().len(),
        ensures
            final(self).wf(),
            final(self).text() == old(self).text(),
            final(self).position() == single_quoted(
                old(self).text(),
                old(self).position() + 1,
                Seq::empty(),
            ).0,
            step_view(res) == step_outcome(
                old(self).text(),
                single_quoted(old(self).text(), old(self).position() + 1, Seq::empty()),
            ),
    {
        let ghost s = self.text();
        let ghost target = single_quoted(s, self.position() + 1, Seq::empty());
        self.advance();
        let mut out = String::new();
        loop
            invariant_except_break
                single_quoted(s, self.position(), out@) == target,
            invariant
                self.wf(),
                self.text() == s,
                s == old(self).text(),
                target == single_quoted(s, old(self).position() + 1, Seq::empty()),
            ensures
                target == (self.position(), Ok::<TokenView, Seq<char>>(TokenView::SingleQuoted(out@))),
            decreases s.len() - self.position(),
        {
            if self.is_eof() {
                let mut m = String::from_str("unterminated single-quoted string at line ");
                write_decimal(&mut m, self.line as u64);
                return Err(YamlError::ParseError(m));
            }
            let c = self.current_char();
            if c == '\'' {
                self.advance();
                if self.current_char() == '\'' {
                    push_char(&mut out, '\'');
                    self.advance();
                } else {
                    break;
                }
            } else {
                push_char(&mut out, c);
                self.advance();
            }
        }
        Ok(self.make_token(Token::SingleQuoted(out)))
    }

    fn read_double_quoted(&mut self) -> (res: Result<SpannedToken<'a>, YamlError>)
        requires
            old(self).wf(),
            old(self).position() < old(self).text().len(),
        ensures
            final(self).wf(),
            final(self).text() == old(self).text(),
            final(self).position() == double_quoted(
                old(self).text(),
                old(self).position() + 1,
                Seq::empty(),
            ).0,
            step_view(res) == step_outcome(
                old(self).text(),
                double_quoted(old(self).text(), old(self).position() + 1, Seq::empty()),
            ),
    {
        let ghost s = self.text();
        let ghost target = double_quoted(s, self.position() + 1, Seq::empty());
        self.advance();
        let mut out = String::new();
        loop
            invariant_except_break
                double_quoted(s, self.position(), out@) == target,
            invariant
                self.wf(),
                self.text() == s,
                s == old(self).text(),
                target == double_quoted(s, old(self).position() + 1, Seq::empty()),
            ensures
                target == (self.position(), Ok::<TokenView, Seq<char>>(TokenView::DoubleQuoted(out@))),
            decreases s.len() - self.position(),
        {
            if self.is_eof() {
                let mut m = String::from_str("unterminated double-quoted string at line ");
                write_decimal(&mut m, self.line as u64);
                return Err(YamlError::ParseError(m));
            }
            let c = self.current_char();
            if c == '"' {
                self.advance();
                break;
            } else if c == '\\' {
                self.advance();
                let e = self.current_char();
                if e == 'n' {
                    push_char(&mut out, '\n');
                    self.advance();
                } else if e == 't' {
                    push_char(&mut out, '\t');
                    self.advance();
                } else if e == 'r' {
                    push_char(&mut out, '\r');
                    self.advance();
                } else if e == '\\' {
                    push_char(&mut out, '\\');
                    self.advance();
                } else if e == '"' {
                    push_char(&mut out, '"');
                    self.advance();
                } else if e == '0' {
                    push_char(&mut out, '\0');
                    self.advance();
                } else {
                    let mut m = String::from_str("unknown escape sequence: \\");
                    push_char(&mut m, e);
                    m.append(" at line ");
                    write_decimal(&mut m, self.line as u64);
                    assert(m@ =~= model::unknown_escape_message(e, line_at(s, self.position())));
                    return Err(YamlError::ParseError(m));
                }
            } else {
                push_char(&mut out, c);
                self.advance();
            }
        }
        Ok(self.make_token(Token::DoubleQuoted(out)))
    }

    fn read_scalar(&mut self) -> (res: Result<SpannedToken<'a>, YamlError>)
        requires
            old(self).wf(),
        ensures
            final(self).wf(),
            final(self).text() == old(self).text(),
            final(self).position() == plain_scalar(old(self).text(), old(self).position()).0,
            step_view(res) == step_outcome(
                old(self).text(),
                plain_scalar(old(self).text(), old(self).position()),
            ),
    {
        let ghost s = self.text();
        let start = self.pos;
        while !self.is_eof()
            invariant
                self.wf(),
                self.text() == s,
                start <= self.position(),
                scalar_end(s, self.position()) == scalar_end(s, start as int),
            ensures
                self.wf(),
                self.text() == s,
                self.position() == scalar_end(s, start as int),
            decreases s.len() - self.position(),
        {
            let c = self.current_char();
            if c == '\n' {
                break;
            }
            if c == ':' && self.next_is_whitespace() {
                break;
            }
            if c == '#' && self.prev_is_whitespace() {
                break;
            }
            self.advance();
        }
        let end = self.pos;
        let mut ts = start;
        while ts < end && is_unicode_whitespace(self.chars[ts])
            invariant
                self.wf(),
                self.text() == s,
                start <= ts <= end,
                end <= s.len(),
                trim_start_pos(s, ts as int, end as int) == trim_start_pos(s, start as int, end as int),
            decreases end - ts,
        {
            ts = ts + 1;
        }
        let mut te = end;
        while te > start && is_unicode_whitespace(self.chars[te - 1])
            invariant
                self.wf(),
                self.text() == s,
                start <= te <= end,
                end <= s.len(),
                trim_end_pos(s, start as int, te as int) == trim_end_pos(s, start as int, end as int),
            decreases te - start,
        {
            te = te - 1;
        }
        if ts >= te {
            proof {
                lemma_line_col_bounds(s, end as int);
            }
            let mut m = String::from_str("unexpected character at line ");
            write_decimal(&mut m, self.line as u64);
            m.append(", col ");
            write_decimal(&mut m, self.col as u64);
            return Err(YamlError::ParseError(m));
        }
        let value = self.input.substring_char(ts, te);
        Ok(self.make_token(Token::Scalar(value)))
    }

    fn current_char(&self) -> (c: char)
        requires
            self.wf(),
        ensures
            c == char_at(self.text(), self.position()),
    {
        if self.pos < self.chars.len() {
            self.chars[self.pos]
        } else {
            '\0'
        }
    }

    fn peek_is(&self, w: &str) -> (b: bool)
        requires
            self.wf(),
        ensures
            b == starts_with(self.text(), self.position(), w@),
    {
        let n = w.unicode_len();
        if n > self.chars.len() - self.pos {
            return false;
        }
        let mut i: usize = 0;
        while i < n
            invariant
                self.wf(),
                n == w@.len(),
                self.pos + n <= self.chars.len(),
                i <= n,
                forall|j: int| 0 <= j < i ==> self.chars@[self.pos + j] == w@[j],
            decreases n - i,
        {
            if self.chars[self.pos + i] != w.get_char(i) {
                assert(self.text().subrange(self.position(), self.position() + n)[i as int] != w@[i as int]);
                return false;
            }
            i = i + 1;
        }
        assert(self.text().subrange(self.position(), self.position() + n) =~= w@);
        true
    }

    fn next_is_whitespace(&self) -> (b: bool)
        requires
            self.wf(),
        ensures
            b == next_is_ws(self.text(), self.position()),
    {
        if self.pos + 1 >= self.chars.len() {
            return true;
        }
        let c = self.chars[self.pos + 1];
        c == ' ' || c == '\n' || c == '\t'
    }

    fn prev_is_whitespace(&self) -> (b: bool)
        requires
            self.wf(),
        ensures
            b == prev_is_ws(self.text(), self.position()),
    {
        if self.pos == 0 {
            return true;
        }
        let c = self.chars[self.pos - 1];
        c == ' ' || c == '\t'
    }

    fn advance(&mut self)
        requires
            old(self).wf(),
        ensures
            final(self).wf(),
            final(self).text() == old(self).text(),
            final(self).position() == if old(self).position() < old(self).text().len() {
                old(self).position() + 1
            } else {
                old(self).position()
            },
            old(self).position() < old(self).text().len() && old(self).text()[old(self).position()]
                == '\n' ==> final(self).line_number() == old(self).line_number() + 1
                && final(self).column() == 1,
            old(self).position() < old(self).text().len() && old(self).text()[old(self).position()]
                != '\n' ==> final(self).line_number() == old(self).line_number()
                && final(self).column() == old(self).column() + 1,
            old(self).position() >= old(self).text().len() ==> final(self).line_number()
                == old(self).line_number() && final(self).column() == old(self).column(),
    {
        if self.pos < self.chars.len() {
            let c = self.chars[self.pos];
            proof {
                lemma_line_col_bounds(self.chars@, self.pos as int);
            }
            self.pos = self.pos + 1;
            if c == '\n' {
                self.line = self.line + 1;
                self.col = 1;
            } else {
                self.col = self.col + 1;
            }
        }
    }

    fn advance_by(&mut self, n: usize)
        requires
            old(self).wf(),
        ensures
            final(self).wf(),
            final(self).text() == old(self).text(),
            final(self).position() == if old(self).position() + n <= old(self).text().len() {
                old(self).position() + n
            } else {
                old(self).text().len() as int
            },
    {
        let ghost p0 = self.position();
        for i in 0..n
            invariant
                self.wf(),
                self.text() == old(self).text(),
                self.position() == if p0 + i <= self.text().len() {
                    p0 + i
                } else {
                    self.text().len() as int
                },
        {
            self.advance();
        }
    }

    fn is_eof(&self) -> (b: bool)
        requires
            self.wf(),
        ensures
            b == (self.position() >= self.text().len()),
    {
        self.pos >= self.chars.len()
    }

    fn skip_comment(&mut self)
        requires
            old(self).wf(),
        ensures
            final(self).wf(),
            final(self).text() == old(self).text(),
            final(self).position() == skip_comment(old(self).text(), old(self).position()),
    {
        let ghost s = self.text();
        let ghost p0 = self.position();
        if self.current_char() == '#' && self.prev_is_whitespace() {
            while !self.is_eof() && self.current_char() != '\n'
                invariant
                    self.wf(),
                    self.text() == s,
                    line_end(s, self.position()) == line_end(s, p0),
                decreases s.len() - self.position(),
            {
                self.advance();
            }
        }
    }

    fn count_indent(&mut self) -> (count: usize)
        requires
            old(self).wf(),
        ensures
            final(self).wf(),
            final(self).text() == old(self).text(),
            final(self).position() == spaces_end(old(self).text(), old(self).position()),
            count == final(self).position() - old(self).position(),
            final(self).line_number() == old(self).line_number(),
            final(self).column() == old(self).column() + count,
            char_at(final(self).text(), final(self).position()) != ' ',
    {
        let ghost s = self.text();
        let ghost p0 = self.position();
        let mut count: usize = 0;
        while self.current_char() == ' '
            invariant
                self.wf(),
                self.text() == s,
                count == self.position() - p0,
                p0 == old(self).position(),
                spaces_end(s, self.position()) == spaces_end(s, p0),
                self.line_number() == old(self).line_number(),
                self.column() == old(self).column() + count,
            decreases s.len() - self.position(),
        {
            assert(self.position() < s.len());
            self.advance();
            count = count + 1;
        }
        count
    }

    fn make_token(&self, token: Token<'a>) -> (t: SpannedToken<'a>)
        requires
            self.wf(),
        ensures
            t.token == token,
            t@ == spanned(self.text(), self.position(), token@),
    {
        SpannedToken { token, line: self.line, col: self.col }
    }
}

} // verus!
