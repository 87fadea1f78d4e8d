//! The parser as mathematics: what reading a value from a sequence of tokens
//! yields, and where reading stops.
use vstd::prelude::*;
use crate::ast::{map_set, ValueView};
use crate::lexer::model::{depth_message, MAX_DEPTH};
use crate::lexer::token::TokenView;
use crate::scalar::interpret;
use crate::text::decimal;

verus! {

/// The token at `i`, or `Eof` past the end.
pub open spec fn cur(t: Seq<TokenView>, i: int) -> TokenView {
    if 0 <= i < t.len() {
        t[i]
    } else {
        TokenView::Eof
    }
}

/// Whether a colon follows the token at `i`.
pub open spec fn peek_colon(t: Seq<TokenView>, i: int) -> bool {
    0 <= i + 1 < t.len() && t[i + 1] is Colon
}

/// The first position at or after `i` that holds neither a newline nor an indentation.
pub open spec fn skip_newlines(t: Seq<TokenView>, i: int) -> int
    decreases t.len() - i,
{
    if 0 <= i < t.len() && (t[i] is Newline || t[i] is Indent) {
        skip_newlines(t, i + 1)
    } else {
        i
    }
}

/// The width of the indentation at `i`, or 0.
pub open spec fn current_indent(t: Seq<TokenView>, i: int) -> int {
    match cur(t, i) {
        TokenView::Indent(n) => n as int,
        _ => 0,
    }
}

/// How one character of a string is shown in a token's description.
pub open spec fn escape_char(c: char) -> Seq<char> {
    if c == '"' {
        seq!['\\', '"']
    } else if c == '\\' {
        seq!['\\', '\\']
    } else if c == '\n' {
        seq!['\\', 'n']
    } else if c == '\r' {
        seq!['\\', 'r']
    } else if c == '\t' {
        seq!['\\', 't']
    } else if c == '\0' {
        seq!['\\', '0']
    } else {
        seq![c]
    }
}

/// How a string is shown, between double quotes, in a token's description.
pub open spec fn escape_text(s: Seq<char>) -> Seq<char>
    decreases s.len(),
{
    if s.len() == 0 {
        Seq::empty()
    } else {
        escape_text(s.drop_last()) + escape_char(s.last())
    }
}

/// How a token is shown in an error message: its name, and what it holds in brackets.
/// A string is shown with its quotes, backslashes, newlines, carriage returns, tabs
/// and NUL characters escaped and every other character as it is; the messages of
/// the parser only ever show tokens that hold no text (`laws::law_parse_errors`).
pub open spec fn token_text(t: TokenView) -> Seq<char> {
    match t {
        TokenView::Colon => "Colon"@,
        TokenView::Dash => "Dash"@,
        TokenView::Newline => "Newline"@,
        TokenView::Indent(n) => "Indent("@ + decimal(n) + ")"@,
        TokenView::Scalar(s) => "Scalar(\""@ + escape_text(s) + "\")"@,
        TokenView::SingleQuoted(s) => "SingleQuoted(\""@ + escape_text(s) + "\")"@,
        TokenView::DoubleQuoted(s) => "DoubleQuoted(\""@ + escape_text(s) + "\")"@,
        TokenView::DocStart => "DocStart"@,
        TokenView::DocEnd => "DocEnd"@,
        TokenView::Eof => "Eof"@,
    }
}

pub open spec fn unexpected_token_message(t: TokenView) -> Seq<char> {
    "unexpected token: "@ + token_text(t)
}

pub open spec fn expected_message(expected: TokenView, got: TokenView) -> Seq<char> {
    "expected "@ + token_text(expected) + ", got "@ + token_text(got)
}

/// The outcome of reading a value: the position reached, and the value or an error message.
pub type Parsed = (int, Result<ValueView, Seq<char>>);

pub proof fn lemma_skip_newlines(t: Seq<TokenView>, i: int)
    requires
        0 <= i <= t.len(),
    ensures
        i <= skip_newlines(t, i) <= t.len(),
        !(cur(t, skip_newlines(t, i)) is Newline),
        !(cur(t, skip_newlines(t, i)) is Indent),
        current_indent(t, skip_newlines(t, i)) == 0,
    decreases t.len() - i,
{
    if i < t.len() && (t[i] is Newline || t[i] is Indent) {
        lemma_skip_newlines(t, i + 1);
    }
}

/// Reads one value at `i`, for a block indented by `indent`, inside `depth` open collections.
pub open spec fn parse_value(t: Seq<TokenView>, i: int, indent: int, depth: int) -> Parsed
    decreases t.len() - i, 2int,
{
    match cur(t, i) {
        TokenView::Dash => parse_sequence(t, i, indent, depth),
        TokenView::Scalar(s) => if peek_colon(t, i) {
            parse_mapping(t, i, indent, depth)
        } else {
            (i + 1, Ok(interpret(s)))
        },
        TokenView::SingleQuoted(s) => (i + 1, Ok(ValueView::Str(s))),
        TokenView::DoubleQuoted(s) => (i + 1, Ok(ValueView::Str(s))),
        TokenView::DocStart => {
            proof {
                lemma_skip_newlines(t, i + 1);
            }
            parse_value(t, skip_newlines(t, i + 1), indent, depth)
        },
        TokenView::Eof => (i, Ok(ValueView::Null)),
        other => (i, Err(unexpected_token_message(other))),
    }
}

/// Reads a sequence whose first dash is at `i`; it opens one more collection.
pub open spec fn parse_sequence(t: Seq<TokenView>, i: int, indent: int, depth: int) -> Parsed
    decreases t.len() - i, 1int,
{
    if depth + 1 > MAX_DEPTH {
        (i, Err(depth_message()))
    } else {
        sequence_items(t, i, indent, depth + 1, Seq::empty())
    }
}

/// Reads the items of a sequence from `i` on, after the items `acc`: each item
/// follows a dash and is indented two more columns than the sequence.
///
/// The test for a line indented less than the sequence never succeeds, by
/// design: `skip_newlines` has already passed over the indentation, so the
/// sequence goes on for as long as dashes follow, whatever their indentation.
pub open spec fn sequence_items(
    t: Seq<TokenView>,
    i: int,
    indent: int,
    depth: int,
    acc: Seq<ValueView>,
) -> Parsed
    decreases t.len() - i, 0int,
{
    if cur(t, i) is Dash {
        proof {
            lemma_skip_newlines(t, i + 1);
        }
        let j = skip_newlines(t, i + 1);
        let (k, r) = parse_value(t, j, indent + 2, depth);
        match r {
            Err(m) => (k, Err(m)),
            Ok(v) => {
                let m = skip_newlines(t, k);
                let items = acc.push(v);
                if cur(t, m) matches TokenView::Indent(n) && n < indent {
                    (m, Ok(ValueView::Sequence(items)))
                } else if i < m <= t.len() {
                    sequence_items(t, m, indent, depth, items)
                } else {
                    (m, Ok(ValueView::Sequence(items)))
                }
            },
        }
    } else {
        (i, Ok(ValueView::Sequence(acc)))
    }
}

/// Reads a mapping whose first key is at `i`; it opens one more collection.
pub open spec fn parse_mapping(t: Seq<TokenView>, i: int, indent: int, depth: int) -> Parsed
    decreases t.len() - i, 1int,
{
    if depth + 1 > MAX_DEPTH {
        (i, Err(depth_message()))
    } else {
        mapping_entries(t, i, indent, depth + 1, Seq::empty())
    }
}

/// Reads the entries of a mapping from `i` on, after the entries `acc`: a plain
/// scalar key, a colon, and a value after any newlines.
/// A key that comes again takes the new value in its first place.
///
/// The test for a line indented less than the mapping never succeeds, by
/// design: `skip_newlines` has already passed over the indentation, so a key on
/// a less indented line still belongs to the innermost open mapping:
/// `a:\n  b: 1\nc: 2` reads as `{a: {b: 1, c: 2}}`.
pub open spec fn mapping_entries(
    t: Seq<TokenView>,
    i: int,
    indent: int,
    depth: int,
    acc: Seq<(Seq<char>, ValueView)>,
) -> Parsed
    decreases t.len() - i, 0int,
{
    if cur(t, i) is Eof {
        (i, Ok(ValueView::Mapping(acc)))
    } else if cur(t, i) matches TokenView::Indent(n) && n < indent {
        (i, Ok(ValueView::Mapping(acc)))
    } else {
        let i1 = if cur(t, i) is Indent {
            i + 1
        } else {
            i
        };
        match cur(t, i1) {
            TokenView::Scalar(key) => {
                if cur(t, i1 + 1) is Colon {
                    proof {
                        lemma_skip_newlines(t, i1 + 2);
                    }
                    let i3 = skip_newlines(t, i1 + 2);
                    proof {
                        lemma_skip_newlines(t, i3);
                    }
                    let (i4, r) = if cur(t, i3) is Newline || cur(t, i3) is Eof {
                        let j = skip_newlines(t, i3);
                        parse_value(t, j, current_indent(t, j), depth)
                    } else {
                        parse_value(t, i3, indent, depth)
                    };
                    match r {
                        Err(m) => (i4, Err(m)),
                        Ok(v) => {
                            let i5 = skip_newlines(t, i4);
                            let entries = map_set(acc, key, v);
                            if i < i5 <= t.len() {
                                mapping_entries(t, i5, indent, depth, entries)
                            } else {
                                (i5, Ok(ValueView::Mapping(entries)))
                            }
                        },
                    }
                } else {
                    (i1 + 1, Err(expected_message(TokenView::Colon, cur(t, i1 + 1))))
                }
            },
            _ => (i1, Ok(ValueView::Mapping(acc))),
        }
    }
}

/// Reads the documents from `i` on, after the documents `acc`: each may open
/// with `---` and close with `...`.
pub open spec fn documents(t: Seq<TokenView>, i: int, acc: Seq<ValueView>) -> Result<
    Seq<ValueView>,
    Seq<char>,
>
    decreases t.len() - i,
{
    let i1 = skip_newlines(t, i);
    if cur(t, i1) is Eof {
        Ok(acc)
    } else {
        let i2 = if cur(t, i1) is DocStart {
            skip_newlines(t, i1 + 1)
        } else {
            i1
        };
        if cur(t, i2) is Eof {
            Ok(acc)
        } else {
            let (i3, r) = parse_value(t, i2, 0, 0);
            match r {
                Err(m) => Err(m),
                Ok(v) => {
                    let i4 = skip_newlines(t, i3);
                    let i5 = if cur(t, i4) is DocEnd {
                        i4 + 1
                    } else {
                        i4
                    };
                    if i < i5 <= t.len() {
                        documents(t, i5, acc.push(v))
                    } else {
                        Ok(acc.push(v))
                    }
                },
            }
        }
    }
}

} // verus!
