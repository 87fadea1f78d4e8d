//! The lexer as mathematics: what each step of reading YAML text yields,
//! stated over the text as a sequence of characters and a position in it.
use vstd::prelude::*;
use crate::text::decimal;
use super::token::{TokenView, SpannedView};

verus! {

/// The deepest nesting the library accepts; an indentation of more than
/// twice this many spaces is refused.
pub const MAX_DEPTH: usize = 32;

/// The character at `p`, or `'\0'` past the end.
pub open spec fn char_at(s: Seq<char>, p: int) -> char {
    if 0 <= p < s.len() {
        s[p]
    } else {
        '\0'
    }
}

/// The line and the column (both counted from 1) of position `p`.
pub open spec fn line_col(s: Seq<char>, p: int) -> (int, int)
    decreases p,
{
    if p <= 0 {
        (1, 1)
    } else {
        let (l, c) = line_col(s, p - 1);
        if char_at(s, p - 1) == '\n' {
            (l + 1, 1)
        } else {
            (l, c + 1)
        }
    }
}

pub open spec fn line_at(s: Seq<char>, p: int) -> int {
    line_col(s, p).0
}

pub open spec fn col_at(s: Seq<char>, p: int) -> int {
    line_col(s, p).1
}

/// Whether the character after position `p` is a space, a tab, a newline, or absent.
pub open spec fn next_is_ws(s: Seq<char>, p: int) -> bool {
    p + 1 >= s.len() || s[p + 1] == ' ' || s[p + 1] == '\n' || s[p + 1] == '\t'
}

/// Whether `p` is the start of the text or follows a space or a tab.
///
/// A newline does not count: by design a `#` at the start of any line but the
/// first opens no comment and is read as the start of a plain scalar, so the
/// text `a: 1\n# note\n` holds the scalar `# note` on its second line.
pub open spec fn prev_is_ws(s: Seq<char>, p: int) -> bool {
    p == 0 || s[p - 1] == ' ' || s[p - 1] == '\t'
}

/// Whether the text from `p` on begins with `w`.
pub open spec fn starts_with(s: Seq<char>, p: int, w: Seq<char>) -> bool {
    0 <= p && p + w.len() <= s.len() && s.subrange(p, p + w.len()) == w
}

/// The first position at or after `p` that holds a newline, or the end.
pub open spec fn line_end(s: Seq<char>, p: int) -> int
    decreases s.len() - p,
{
    if 0 <= p < s.len() && s[p] != '\n' {
        line_end(s, p + 1)
    } else {
        p
    }
}

/// The first position at or after `p` that does not hold a space.
pub open spec fn spaces_end(s: Seq<char>, p: int) -> int
    decreases s.len() - p,
{
    if 0 <= p < s.len() && s[p] == ' ' {
        spaces_end(s, p + 1)
    } else {
        p
    }
}

/// Where the lexer stands after passing over a comment at `p`, if one starts there:
/// a `#` at the start of the text or after a space or a tab runs to the end of the line.
/// A `#` that opens a later line is no comment (see `prev_is_ws`).
pub open spec fn skip_comment(s: Seq<char>, p: int) -> int {
    if char_at(s, p) == '#' && prev_is_ws(s, p) {
        line_end(s, p)
    } else {
        p
    }
}

/// Unicode white space, the characters with the `White_Space` property.
pub open spec fn is_unicode_ws(c: char) -> bool {
    let u = c as u32;
    ||| 9 <= u <= 13
    ||| u == 32
    ||| u == 0x85
    ||| u == 0xA0
    ||| u == 0x1680
    ||| 0x2000 <= u <= 0x200A
    ||| u == 0x2028
    ||| u == 0x2029
    ||| u == 0x202F
    ||| u == 0x205F
    ||| u == 0x3000
}

/// The first position in `a..b` that holds no white space, or `b`.
pub open spec fn trim_start_pos(s: Seq<char>, a: int, b: int) -> int
    decreases b - a,
{
    if a < b && is_unicode_ws(s[a]) {
        trim_start_pos(s, a + 1, b)
    } else {
        a
    }
}

/// The position after the last character in `a..b` that is no white space, or `a`.
pub open spec fn trim_end_pos(s: Seq<char>, a: int, b: int) -> int
    decreases b - a,
{
    if a < b && is_unicode_ws(s[b - 1]) {
        trim_end_pos(s, a, b - 1)
    } else {
        b
    }
}

/// Where a plain scalar that starts at `p` ends: before a newline, before a colon
/// that white space follows, or before a `#` that white space precedes.
pub open spec fn scalar_end(s: Seq<char>, p: int) -> int
    decreases s.len() - p,
{
    if p < 0 || p >= s.len() {
        p
    } else if s[p] == '\n' || (s[p] == ':' && next_is_ws(s, p)) || (s[p] == '#' && prev_is_ws(
        s,
        p,
    )) {
        p
    } else {
        scalar_end(s, p + 1)
    }
}

pub open spec fn depth_message() -> Seq<char> {
    "exceeded max nesting depth of "@ + decimal(MAX_DEPTH as nat)
}

pub open spec fn unterminated_single_message(line: int) -> Seq<char> {
    "unterminated single-quoted string at line "@ + decimal(line as nat)
}

pub open spec fn unterminated_double_message(line: int) -> Seq<char> {
    "unterminated double-quoted string at line "@ + decimal(line as nat)
}

pub open spec fn unknown_escape_message(c: char, line: int) -> Seq<char> {
    "unknown escape sequence: \\"@ + seq![c] + " at line "@ + decimal(line as nat)
}

pub open spec fn unexpected_char_message(line: int, col: int) -> Seq<char> {
    "unexpected character at line "@ + decimal(line as nat) + ", col "@ + decimal(col as nat)
}

/// The character that a backslash followed by `c` stands for in a double-quoted string.
pub open spec fn unescape(c: char) -> Option<char> {
    if c == 'n' {
        Some('\n')
    } else if c == 't' {
        Some('\t')
    } else if c == 'r' {
        Some('\r')
    } else if c == '\\' {
        Some('\\')
    } else if c == '"' {
        Some('"')
    } else if c == '0' {
        Some('\0')
    } else {
        None
    }
}

/// The outcome of one lexing step: the position reached and a token or an error message.
pub type Step = (int, Result<TokenView, Seq<char>>);

/// Reads the body of a single-quoted string from `p` (after the opening quote),
/// having read `acc` so far; two quotes in a row stand for one.
pub open spec fn single_quoted(s: Seq<char>, p: int, acc: Seq<char>) -> Step
    decreases s.len() - p,
{
    if p < 0 || p >= s.len() {
        (p, Err(unterminated_single_message(line_at(s, p))))
    } else if s[p] == '\'' {
        if char_at(s, p + 1) == '\'' {
            single_quoted(s, p + 2, acc.push('\''))
        } else {
            (p + 1, Ok(TokenView::SingleQuoted(acc)))
        }
    } else {
        single_quoted(s, p + 1, acc.push(s[p]))
    }
}

/// Reads the body of a double-quoted string from `p` (after the opening quote),
/// having read `acc` so far; a backslash starts an escape.
pub open spec fn double_quoted(s: Seq<char>, p: int, acc: Seq<char>) -> Step
    decreases s.len() - p,
{
    if p < 0 || p >= s.len() {
        (p, Err(unterminated_double_message(line_at(s, p))))
    } else if s[p] == '"' {
        (p + 1, Ok(TokenView::DoubleQuoted(acc)))
    } else if s[p] == '\\' {
        match unescape(char_at(s, p + 1)) {
            Some(e) => double_quoted(s, p + 2, acc.push(e)),
            None => (p + 1, Err(unknown_escape_message(char_at(s, p + 1), line_at(s, p + 1)))),
        }
    } else {
        double_quoted(s, p + 1, acc.push(s[p]))
    }
}

/// Reads a plain scalar that starts at `p`: its text without surrounding white space,
/// which must not be empty.
pub open spec fn plain_scalar(s: Seq<char>, p: int) -> Step {
    let e = scalar_end(s, p);
    let ts = trim_start_pos(s, p, e);
    let te = trim_end_pos(s, p, e);
    if ts >= te {
        (e, Err(unexpected_char_message(line_at(s, e), col_at(s, e))))
    } else {
        (e, Ok(TokenView::Scalar(s.subrange(ts, te))))
    }
}

/// The next token from position `p`, and the position after it.
pub open spec fn next_token(s: Seq<char>, p: int) -> Step
    decreases s.len() - p,
{
    let q = skip_comment(s, p);
    if q < 0 || q >= s.len() {
        (q, Ok(TokenView::Eof))
    } else {
        let c = s[q];
        if c == '\n' {
            (q + 1, Ok(TokenView::Newline))
        } else if c == '-' && starts_with(s, q, "---"@) {
            (q + 3, Ok(TokenView::DocStart))
        } else if c == '.' && starts_with(s, q, "..."@) {
            (q + 3, Ok(TokenView::DocEnd))
        } else if c == '-' && next_is_ws(s, q) {
            (q + 1, Ok(TokenView::Dash))
        } else if c == ':' && next_is_ws(s, q) {
            (q + 1, Ok(TokenView::Colon))
        } else if c == ' ' && col_at(s, q) == 1 {
            let e = spaces_end(s, q);
            if e - q > 2 * MAX_DEPTH {
                (e, Err(depth_message()))
            } else {
                (e, Ok(TokenView::Indent((e - q) as nat)))
            }
        } else if c == ' ' || c == '\t' {
            proof {
                lemma_skip_comment_bounds(s, p);
            }
            next_token(s, q + 1)
        } else if c == '\'' {
            single_quoted(s, q + 1, Seq::empty())
        } else if c == '"' {
            double_quoted(s, q + 1, Seq::empty())
        } else {
            plain_scalar(s, q)
        }
    }
}

/// A token together with the line and column of the position after it.
pub open spec fn spanned(s: Seq<char>, p: int, t: TokenView) -> SpannedView {
    SpannedView { token: t, line: line_at(s, p) as nat, col: col_at(s, p) as nat }
}

/// Reads every token from `p` to the end, after `acc`: the tokens and a closing
/// `Eof`, or the first error; with the position where reading stopped.
pub open spec fn tokens_from(s: Seq<char>, p: int, acc: Seq<SpannedView>) -> (
    int,
    Result<Seq<SpannedView>, Seq<char>>,
)
    decreases s.len() - p,
{
    if p < 0 || p >= s.len() {
        (p, Ok(acc.push(spanned(s, p, TokenView::Eof))))
    } else {
        proof {
            lemma_next_token_progress(s, p);
        }
        let (q, r) = next_token(s, p);
        match r {
            Err(m) => (q, Err(m)),
            Ok(t) => tokens_from(s, q, acc.push(spanned(s, q, t))),
        }
    }
}

/// The tokens that reading one at a time from `p` yields before the end of the
/// text or the first error, after `acc`.
pub open spec fn stream_from(s: Seq<char>, p: int, acc: Seq<TokenView>) -> Seq<TokenView>
    decreases s.len() - p,
{
    if p < 0 || p >= s.len() {
        acc
    } else {
        proof {
            lemma_next_token_progress(s, p);
        }
        let (q, r) = next_token(s, p);
        match r {
            Err(_) => acc,
            Ok(t) => stream_from(s, q, acc.push(t)),
        }
    }
}

pub proof fn lemma_line_end_bounds(s: Seq<char>, p: int)
    requires
        0 <= p <= s.len(),
    ensures
        p <= line_end(s, p) <= s.len(),
        line_end(s, p) < s.len() ==> s[line_end(s, p)] == '\n',
    decreases s.len() - p,
{
    if p < s.len() && s[p] != '\n' {
        lemma_line_end_bounds(s, p + 1);
    }
}

pub proof fn lemma_spaces_end_bounds(s: Seq<char>, p: int)
    requires
        0 <= p <= s.len(),
    ensures
        p <= spaces_end(s, p) <= s.len(),
    decreases s.len() - p,
{
    if p < s.len() && s[p] == ' ' {
        lemma_spaces_end_bounds(s, p + 1);
    }
}

pub proof fn lemma_skip_comment_bounds(s: Seq<char>, p: int)
    requires
        0 <= p <= s.len(),
    ensures
        p <= skip_comment(s, p) <= s.len(),
{
    lemma_line_end_bounds(s, p);
}

pub proof fn lemma_scalar_end_bounds(s: Seq<char>, p: int)
    requires
        0 <= p <= s.len(),
    ensures
        p <= scalar_end(s, p) <= s.len(),
    decreases s.len() - p,
{
    if p < s.len() && !(s[p] == '\n' || (s[p] == ':' && next_is_ws(s, p)) || (s[p] == '#'
        && prev_is_ws(s, p))) {
        lemma_scalar_end_bounds(s, p + 1);
    }
}

pub proof fn lemma_single_quoted_bounds(s: Seq<char>, p: int, acc: Seq<char>)
    requires
        0 <= p <= s.len(),
    ensures
        p <= single_quoted(s, p, acc).0 <= s.len(),
    decreases s.len() - p,
{
    if p < s.len() {
        if s[p] == '\'' {
            if char_at(s, p + 1) == '\'' {
                lemma_single_quoted_bounds(s, p + 2, acc.push('\''));
            }
        } else {
            lemma_single_quoted_bounds(s, p + 1, acc.push(s[p]));
        }
    }
}

pub proof fn lemma_double_quoted_bounds(s: Seq<char>, p: int, acc: Seq<char>)
    requires
        0 <= p <= s.len(),
    ensures
        p <= double_quoted(s, p, acc).0 <= s.len(),
    decreases s.len() - p,
{
    if p < s.len() && s[p] != '"' {
        if s[p] == '\\' {
            if let Some(e) = unescape(char_at(s, p + 1)) {
                lemma_double_quoted_bounds(s, p + 2, acc.push(e));
            }
        } else {
            lemma_double_quoted_bounds(s, p + 1, acc.push(s[p]));
        }
    }
}

/// Every step from inside the text moves forward and stays within the text.
pub proof fn lemma_next_token_progress(s: Seq<char>, p: int)
    requires
        0 <= p <= s.len(),
    ensures
        p <= next_token(s, p).0 <= s.len(),
        p < s.len() ==> p < next_token(s, p).0,
    decreases s.len() - p,
{
    lemma_skip_comment_bounds(s, p);
    reveal_strlit("---");
    reveal_strlit("...");
    let q = skip_comment(s, p);
    if q < s.len() {
        let c = s[q];
        if c == '\n' {
        } else if c == '-' && starts_with(s, q, "---"@) {
        } else if c == '.' && starts_with(s, q, "..."@) {
        } else if c == '-' && next_is_ws(s, q) {
        } else if c == ':' && next_is_ws(s, q) {
        } else if c == ' ' && col_at(s, q) == 1 {
            lemma_spaces_end_bounds(s, q + 1);
        } else if c == ' ' || c == '\t' {
            lemma_next_token_progress(s, q + 1);
        } else if c == '\'' {
            lemma_single_quoted_bounds(s, q + 1, Seq::empty());
        } else if c == '"' {
            lemma_double_quoted_bounds(s, q + 1, Seq::empty());
        } else {
            lemma_line_end_bounds(s, p);
            assert(!(s[q] == '#' && prev_is_ws(s, q)));
            lemma_scalar_end_bounds(s, q + 1);
        }
    }
}

} // verus!
