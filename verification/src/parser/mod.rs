//! The parser: reads YAML values from the tokens of a text.
pub mod model;

use vstd::prelude::*;
use vstd::string::*;
use crate::ast::{
    key_index, lemma_key_index, lemma_view_entries, lemma_view_entries_push,
    lemma_view_entries_update, lemma_view_items_push, lemma_view_entries_insert, is_index_key,
    index_below, insert_pos, lemma_insert_pos, map_set, view_entries,
    view_items, ValueView, YamlValue,
};
use crate::error::{YamlError, YamlErrorView};
use crate::lexer::model::{depth_message, stream_from, MAX_DEPTH, lemma_next_token_progress};
use crate::lexer::token::{Token, TokenView};
use crate::lexer::Lexer;
use crate::scalar::{
    all_digits, chars_of, digits_value, interpret_scalar, lemma_digits_value_grows,
    lemma_digits_value_push,
};
use crate::text::{push_char, write_decimal};
use model::{
    cur, current_indent, documents, escape_char, escape_text, expected_message,
    lemma_skip_newlines, mapping_entries, parse_mapping, parse_sequence, parse_value,
    peek_colon, sequence_items, skip_newlines, token_text,
};

verus! {

/// The views of a sequence of tokens.
pub open spec fn token_views<'a>(v: Seq<Token<'a>>) -> Seq<TokenView> {
    v.map_values(|t: Token<'a>| t@)
}

/// The tokens that the parser reads from a text: those that the lexer yields one
/// at a time before the end of the text or its first error.
///
/// A lexer error is not reported by the parser: it ends the token stream, and
/// the parser reads what came before it. So `a: 1\nb: 'open\n`, whose quote is
/// never closed, reads as the mapping `{a: 1, b: null}`.
pub open spec fn token_stream_of(s: Seq<char>) -> Seq<TokenView> {
    stream_from(s, 0, Seq::empty())
}

/// An error message of the parser as an error.
pub open spec fn parse_error<T>(r: Result<T, Seq<char>>) -> Result<T, YamlErrorView> {
    match r {
        Ok(v) => Ok(v),
        Err(m) => Err(YamlErrorView::ParseError(m)),
    }
}

/// The view of a value or an error.
pub open spec fn value_result(r: Result<YamlValue, YamlError>) -> Result<ValueView, YamlErrorView> {
    match r {
        Ok(v) => Ok(v@),
        Err(e) => Err(e@),
    }
}

/// The view of a list of values or an error.
pub open spec fn values_result(r: Result<Vec<YamlValue>, YamlError>) -> Result<
    Seq<ValueView>,
    YamlErrorView,
> {
    match r {
        Ok(v) => Ok(view_items(v@)),
        Err(e) => Err(e@),
    }
}

/// What reading the first document of `s` yields.
pub open spec fn parse_outcome(s: Seq<char>) -> Result<ValueView, YamlErrorView> {
    let t = token_stream_of(s);
    parse_error(parse_value(t, skip_newlines(t, 0), 0, 0).1)
}

/// What reading every document of `s` yields.
pub open spec fn parse_all_outcome(s: Seq<char>) -> Result<Seq<ValueView>, YamlErrorView> {
    parse_error(documents(token_stream_of(s), 0, Seq::empty()))
}

/// Reads the first YAML document of `input`.
pub fn parse(input: &str) -> (res: Result<YamlValue, YamlError>)
    requires
        input@.len() < usize::MAX,
    ensures
        value_result(res) == parse_outcome(input@),
{
    let lexer = Lexer::new(input);
    let mut parser = Parser::new(lexer);
    parser.parse()
}

/// Reads every YAML document of `input`, each optionally opened by `---` and
/// closed by `...`.
pub fn parse_all(input: &str) -> (res: Result<Vec<YamlValue>, YamlError>)
    requires
        input@.len() < usize::MAX,
    ensures
        values_result(res) == parse_all_outcome(input@),
{
    let lexer = Lexer::new(input);
    let mut parser = Parser::new(lexer);
    let ghost t = parser.toks();
    let mut docs: Vec<YamlValue> = Vec::new();
    proof {
        assert(view_items(docs@) =~= Seq::empty());
    }
    loop
        invariant
            parser.wf(),
            parser.toks() == t,
            parser.depth == 0,
            t == token_stream_of(input@),
            documents(t, parser.pos as int, view_items(docs@)) == documents(t, 0, Seq::empty()),
        ensures
            documents(t, 0, Seq::empty()) == Ok::<Seq<ValueView>, Seq<char>>(view_items(docs@)),
        decreases t.len() - parser.pos,
    {
        let ghost i = parser.pos as int;
        proof {
            lemma_skip_newlines(t, i);
        }
        parser.skip_newlines();
        if parser.is_eof() {
            break;
        }
        if parser.is_doc_start() {
            parser.advance();
            proof {
                lemma_skip_newlines(t, parser.pos as int);
            }
            parser.skip_newlines();
        }
        if parser.is_eof() {
            break;
        }
        let doc = match parser.parse_value(0) {
            Ok(v) => v,
            Err(e) => {
                return Err(e);
            },
        };
        let ghost before = docs@;
        docs.push(doc);
        proof {
            lemma_view_items_push(before, doc);
            lemma_skip_newlines(t, parser.pos as int);
        }
        parser.skip_newlines();
        if parser.is_doc_end() {
            parser.advance();
        }
    }
    Ok(docs)
}

/// The tokens that `lexer` yields one at a time before the end or its first error;
/// the error itself is dropped (see `token_stream_of`).
fn token_stream<'a>(lexer: &mut Lexer<'a>) -> (tokens: Vec<Token<'a>>)
    requires
        old(lexer).wf(),
    ensures
        token_views(tokens@) == stream_from(old(lexer).text(), old(lexer).position(), Seq::empty()),
{
    let ghost s = lexer.text();
    let ghost target = stream_from(s, lexer.position(), Seq::empty());
    let mut tokens: Vec<Token<'a>> = Vec::new();
    assert(token_views(tokens@) =~= Seq::empty());
    loop
        invariant_except_break
            stream_from(s, lexer.position(), token_views(tokens@)) == target,
        invariant
            lexer.wf(),
            lexer.text() == s,
        ensures
            token_views(tokens@) == target,
        decreases s.len() - lexer.position(),
    {
        proof {
            lexer.lemma_wf();
            if lexer.position() < s.len() {
                lemma_next_token_progress(s, lexer.position());
            }
        }
        match lexer.next() {
            None => {
                break;
            },
            Some(Err(_)) => {
                break;
            },
            Some(Ok(t)) => {
                let ghost before = tokens@;
                tokens.push(t.token);
                assert(token_views(tokens@) =~= token_views(before).push(t.token@));
            },
        }
    }
    tokens
}

/// Appends to `out` how the string `x` is shown in a token's description.
fn write_escaped(out: &mut String, x: &str)
    ensures
        final(out)@ == old(out)@ + escape_text(x@),
{
    let cs = chars_of(x);
    let mut i: usize = 0;
    while i < cs.len()
        invariant
            cs@ == x@,
            i <= cs.len(),
            out@ == old(out)@ + escape_text(cs@.take(i as int)),
        decreases cs.len() - i,
    {
        let c = cs[i];
        let ghost before = out@;
        if c == '"' {
            push_char(out, '\\');
            push_char(out, '"');
        } else if c == '\\' {
            push_char(out, '\\');
            push_char(out, '\\');
        } else if c == '\n' {
            push_char(out, '\\');
            push_char(out, 'n');
        } else if c == '\r' {
            push_char(out, '\\');
            push_char(out, 'r');
        } else if c == '\t' {
            push_char(out, '\\');
            push_char(out, 't');
        } else if c == '\0' {
            push_char(out, '\\');
            push_char(out, '0');
        } else {
            push_char(out, c);
        }
        assert(cs@.take(i + 1).drop_last() =~= cs@.take(i as int));
        assert(out@ =~= before + escape_char(c));
        i = i + 1;
    }
    assert(cs@.take(cs.len() as int) =~= cs@);
}

/// How a token is shown in an error message.
fn token_description(t: &Token) -> (s: String)
    ensures
        s@ == token_text(t@),
{
    match t {
        Token::Colon => String::from_str("Colon"),
        Token::Dash => String::from_str("Dash"),
        Token::Newline => String::from_str("Newline"),
        Token::Indent(n) => {
            let mut s = String::from_str("Indent(");
            write_decimal(&mut s, *n as u64);
            s.append(")");
            s
        },
        Token::Scalar(x) => {
            let mut s = String::from_str("Scalar(\"");
            write_escaped(&mut s, x);
            s.append("\")");
            s
        },
        Token::SingleQuoted(x) => {
            let mut s = String::from_str("SingleQuoted(\"");
            write_escaped(&mut s, x.as_str());
            s.append("\")");
            s
        },
        Token::DoubleQuoted(x) => {
            let mut s = String::from_str("DoubleQuoted(\"");
            write_escaped(&mut s, x.as_str());
            s.append("\")");
            s
        },
        Token::DocStart => String::from_str("DocStart"),
        Token::DocEnd => String::from_str("DocEnd"),
        Token::Eof => String::from_str("Eof"),
    }
}

/// Whether two tokens are of the same kind, whatever they hold.
pub open spec fn same_kind(a: TokenView, b: TokenView) -> bool {
    match (a, b) {
        (TokenView::Colon, TokenView::Colon) => true,
        (TokenView::Dash, TokenView::Dash) => true,
        (TokenView::Newline, TokenView::Newline) => true,
        (TokenView::Indent(_), TokenView::Indent(_)) => true,
        (TokenView::Scalar(_), TokenView::Scalar(_)) => true,
        (TokenView::SingleQuoted(_), TokenView::SingleQuoted(_)) => true,
        (TokenView::DoubleQuoted(_), TokenView::DoubleQuoted(_)) => true,
        (TokenView::DocStart, TokenView::DocStart) => true,
        (TokenView::DocEnd, TokenView::DocEnd) => true,
        (TokenView::Eof, TokenView::Eof) => true,
        _ => false,
    }
}

fn same_kind_exec(a: &Token, b: &Token) -> (r: bool)
    ensures
        r == same_kind(a@, b@),
{
    match (a, b) {
        (Token::Colon, Token::Colon) => true,
        (Token::Dash, Token::Dash) => true,
        (Token::Newline, Token::Newline) => true,
        (Token::Indent(_), Token::Indent(_)) => true,
        (Token::Scalar(_), Token::Scalar(_)) => true,
        (Token::SingleQuoted(_), Token::SingleQuoted(_)) => true,
        (Token::DoubleQuoted(_), Token::DoubleQuoted(_)) => true,
        (Token::DocStart, Token::DocStart) => true,
        (Token::DocEnd, Token::DocEnd) => true,
        (Token::Eof, Token::Eof) => true,
        _ => false,
    }
}

/// The number that `k` names if it is an array index (`is_index_key`).
fn index_key_value(k: &String) -> (r: Option<u64>)
    ensures
        match r {
            Some(n) => is_index_key(k@) && n == digits_value(k@),
            None => !is_index_key(k@),
        },
{
    let cs = chars_of(k.as_str());
    if cs.len() == 0 {
        return None;
    }
    if cs.len() > 1 && cs[0] == '0' {
        return None;
    }
    let mut acc: u64 = 0;
    let mut i: usize = 0;
    while i < cs.len()
        invariant
            i <= cs.len(),
            cs@ == k@,
            acc == digits_value(cs@.take(i as int)),
            all_digits(cs@.take(i as int)),
            acc < 4294967295,
        decreases cs.len() - i,
    {
        let c = cs[i];
        if !('0' <= c && c <= '9') {
            assert(!all_digits(cs@)) by {
                assert(cs@[i as int] == c);
            }
            return None;
        }
        let d: u64 = (c as u32 - 48) as u64;
        proof {
            lemma_digits_value_push(cs@.take(i as int), c);
            assert(cs@.take(i + 1) =~= cs@.take(i as int).push(c));
        }
        let next = acc * 10 + d;
        if next >= 4294967295 {
            proof {
                if all_digits(cs@) {
                    lemma_digits_value_grows(cs@, i + 1);
                }
            }
            return None;
        }
        acc = next;
        i = i + 1;
    }
    assert(cs@.take(cs.len() as int) =~= cs@);
    Some(acc)
}

/// Whether `k` is an array index below `bound`.
fn is_index_below(k: &String, bound: u64) -> (b: bool)
    ensures
        b == (is_index_key(k@) && digits_value(k@) < bound),
{
    match index_key_value(k) {
        Some(n) => n < bound,
        None => false,
    }
}

/// Sets the value for `key` in `entries`, as setting a property of a JavaScript
/// object does: an entry with that key keeps its place and takes the new value;
/// a new array index goes after the smaller array indexes; any other new key
/// comes last.
fn map_insert(entries: &mut Vec<(String, YamlValue)>, key: String, value: YamlValue)
    ensures
        view_entries(final(entries)@) == map_set(view_entries(old(entries)@), key@, value@),
{
    let ghost e = view_entries(entries@);
    proof {
        lemma_view_entries(entries@);
        lemma_key_index(e, key@);
    }
    let mut i: usize = 0;
    while i < entries.len()
        invariant
            entries@ == old(entries)@,
            e == view_entries(entries@),
            e.len() == entries.len(),
            forall|j: int| 0 <= j < e.len() ==> #[trigger] e[j] == (entries@[j].0@, entries@[j].1@),
            -1 <= key_index(e, key@) < e.len(),
            key_index(e, key@) >= 0 ==> e[key_index(e, key@)].0 == key@,
            forall|j: int| 0 <= j < e.len() && j < key_index(e, key@) ==> e[j].0 != key@,
            key_index(e, key@) < 0 ==> forall|j: int| 0 <= j < e.len() ==> e[j].0 != key@,
            i <= entries.len(),
            forall|j: int| 0 <= j < i ==> e[j].0 != key@,
        decreases entries.len() - i,
    {
        if entries[i].0 == key {
            assert(e[i as int].0 == key@);
            assert(key_index(e, key@) == i);
            let ghost old_entries = entries@;
            entries.set(i, (key, value));
            proof {
                lemma_view_entries_update(old_entries, i as int, (key, value));
            }
            return;
        }
        i = i + 1;
    }
    assert(key_index(e, key@) < 0);
    let ghost old_entries = entries@;
    match index_key_value(&key) {
        None => {
            entries.push((key, value));
            proof {
                lemma_view_entries_push(old_entries, (key, value));
            }
        },
        Some(kv) => {
            proof {
                lemma_insert_pos(e, key@);
            }
            let mut p: usize = 0;
            while p < entries.len() && is_index_below(&entries[p].0, kv)
                invariant
                    entries@ == old_entries,
                    e == view_entries(entries@),
                    e.len() == entries.len(),
                    forall|j: int|
                        0 <= j < e.len() ==> #[trigger] e[j] == (entries@[j].0@, entries@[j].1@),
                    kv == digits_value(key@),
                    p <= entries.len(),
                    forall|j: int| 0 <= j < p ==> index_below(#[trigger] e[j], key@),
                decreases entries.len() - p,
            {
                assert(index_below(e[p as int], key@));
                p = p + 1;
            }
            proof {
                let ip = insert_pos(e, key@);
                if (p as int) < ip {
                    assert(index_below(e[p as int], key@));
                } else if (p as int) > ip {
                    assert(index_below(e[ip], key@));
                }
            }
            entries.insert(p, (key, value));
            proof {
                lemma_view_entries_insert(old_entries, p as int, (key, value));
            }
        },
    }
}

/// A parser over the tokens of one text, with its position and how many
/// collections are open.
struct Parser<'a> {
    tokens: Vec<Token<'a>>,
    pos: usize,
    depth: usize,
    end: Token<'a>,
}

impl<'a> Parser<'a> {
    spec fn toks(&self) -> Seq<TokenView> {
        token_views(self.tokens@)
    }

    spec fn wf(&self) -> bool {
        &&& self.pos <= self.tokens.len()
        &&& self.end is Eof
    }

    fn new(lexer: Lexer<'a>) -> (p: Self)
        requires
            lexer.wf(),
        ensures
            p.wf(),
            p.toks() == stream_from(lexer.text(), lexer.position(), Seq::empty()),
            p.pos == 0,
            p.depth == 0,
    {
        let mut lexer = lexer;
        let tokens = token_stream(&mut lexer);
        Parser { tokens, pos: 0, depth: 0, end: Token::Eof }
    }

    /// Reads one value after any newlines.
    fn parse(&mut self) -> (res: Result<YamlValue, YamlError>)
        requires
            old(self).wf(),
            old(self).depth == 0,
        ensures
            value_result(res) == parse_error(
                parse_value(
                    old(self).toks(),
                    skip_newlines(old(self).toks(), old(self).pos as int),
                    0,
                    0,
                ).1,
            ),
    {
        proof {
            lemma_skip_newlines(self.toks(), self.pos as int);
        }
        self.skip_newlines();
        self.parse_value(0)
    }

    fn enter(&mut self) -> (res: Result<(), YamlError>)
        requires
            old(self).depth <= MAX_DEPTH,
        ensures
            final(self).tokens == old(self).tokens,
            final(self).pos == old(self).pos,
            final(self).end == old(self).end,
            final(self).depth == old(self).depth + 1,
            res is Ok <==> old(self).depth + 1 <= MAX_DEPTH,
            res matches Err(e) ==> e@ == YamlErrorView::ParseError(depth_message()),
    {
        self.depth = self.depth + 1;
        if self.depth > MAX_DEPTH {
            let mut m = String::from_str("exceeded max nesting depth of ");
            write_decimal(&mut m, MAX_DEPTH as u64);
            Err(YamlError::ParseError(m))
        } else {
            Ok(())
        }
    }

    fn leave(&mut self)
        ensures
            final(self).tokens == old(self).tokens,
            final(self).pos == old(self).pos,
            final(self).end == old(self).end,
            final(self).depth == if old(self).depth > 0 {
                old(self).depth - 1
            } else {
                0
            },
    {
        if self.depth > 0 {
            self.depth = self.depth - 1;
        }
    }

    fn parse_value(&mut self, indent: usize) -> (res: Result<YamlValue, YamlError>)
        requires
            old(self).wf(),
            old(self).depth <= MAX_DEPTH,
            indent <= 2 * old(self).depth,
        ensures
            final(self).wf(),
            final(self).tokens == old(self).tokens,
            old(self).pos <= final(self).pos,
            final(self).pos as int == parse_value(
                old(self).toks(),
                old(self).pos as int,
                indent as int,
                old(self).depth as int,
            ).0,
            value_result(res) == parse_error(
                parse_value(old(self).toks(), old(self).pos as int, indent as int, old(self).depth as int).1,
            ),
            res is Ok ==> final(self).depth == old(self).depth,
            res is Ok && !(cur(old(self).toks(), old(self).pos as int) is Eof) ==> old(self).pos
                < final(self).pos,
            ({
                let t = cur(old(self).toks(), old(self).pos as int);
                t is Eof || t is Colon || t is Newline || t is Indent || t is DocEnd
            }) ==> final(self).depth == old(self).depth && final(self).pos == old(self).pos,
        decreases old(self).tokens.len() - old(self).pos, 2int,
    {
        let ghost t = self.toks();
        proof {
            assert(t.len() == self.tokens.len());
        }
        match self.current_token() {
            Token::Dash => self.parse_sequence(indent),
            Token::Scalar(_) => {
                if self.peek_is_colon() {
                    self.parse_mapping(indent)
                } else {
                    self.parse_scalar()
                }
            },
            Token::SingleQuoted(s) => {
                let value = YamlValue::String(s.clone());
                self.advance();
                Ok(value)
            },
            Token::DoubleQuoted(s) => {
                let value = YamlValue::String(s.clone());
                self.advance();
                Ok(value)
            },
            Token::DocStart => {
                self.advance();
                proof {
                    lemma_skip_newlines(t, self.pos as int);
                }
                self.skip_newlines();
                self.parse_value(indent)
            },
            Token::Eof => Ok(YamlValue::Null),
            token => {
                let mut m = String::from_str("unexpected token: ");
                let d = token_description(token);
                m.append(d.as_str());
                Err(YamlError::ParseError(m))
            },
        }
    }

    fn parse_mapping(&mut self, indent: usize) -> (res: Result<YamlValue, YamlError>)
        requires
            old(self).wf(),
            old(self).depth <= MAX_DEPTH,
            indent <= 2 * old(self).depth,
            cur(old(self).toks(), old(self).pos as int) is Scalar,
        ensures
            final(self).wf(),
            final(self).tokens == old(self).tokens,
            old(self).pos <= final(self).pos,
            final(self).pos as int == parse_mapping(
                old(self).toks(),
                old(self).pos as int,
                indent as int,
                old(self).depth as int,
            ).0,
            value_result(res) == parse_error(
                parse_mapping(old(self).toks(), old(self).pos as int, indent as int, old(self).depth as int).1,
            ),
            res is Ok ==> final(self).depth == old(self).depth,
            res is Ok ==> old(self).pos < final(self).pos,
            old(self).depth + 1 > MAX_DEPTH ==> final(self).depth == old(self).depth + 1
                && final(self).pos == old(self).pos,
        decreases old(self).tokens.len() - old(self).pos, 1int,
    {
        let ghost t = self.toks();
        let ghost i0 = self.pos as int;
        let ghost d = self.depth + 1;
        let ghost target = mapping_entries(t, i0, indent as int, d as int, Seq::empty());
        match self.enter() {
            Ok(()) => {},
            Err(e) => {
                return Err(e);
            },
        }
        let mut entries: Vec<(String, YamlValue)> = Vec::new();
        assert(view_entries(entries@) =~= Seq::empty());
        while !self.is_eof()
            invariant_except_break
                mapping_entries(t, self.pos as int, indent as int, d as int, view_entries(entries@))
                    == target,
            invariant
                self.wf(),
                self.tokens == old(self).tokens,
                self.toks() == t,
                t.len() == self.tokens.len(),
                self.depth == d,
                d == old(self).depth + 1,
                d <= MAX_DEPTH,
                indent <= 2 * (d - 1),
                i0 == old(self).pos,
                i0 <= self.pos,
                i0 == self.pos ==> entries@.len() == 0 && cur(t, self.pos as int) is Scalar,
                target == mapping_entries(t, i0, indent as int, d as int, Seq::empty()),
            ensures
                self.wf(),
                self.tokens == old(self).tokens,
                self.toks() == t,
                self.depth == d,
                i0 < self.pos,
                target == (self.pos as int, Ok::<ValueView, Seq<char>>(
                    ValueView::Mapping(view_entries(entries@)),
                )),
            decreases t.len() - self.pos,
        {
            if let Token::Indent(n) = self.current_token() {
                if *n < indent {
                    break;
                }
                self.advance();
            }
            let key = match self.current_token() {
                Token::Scalar(s) => {
                    let k = String::from_str(*s);
                    self.advance();
                    k
                },
                _ => {
                    break;
                },
            };
            match self.expect(Token::Colon) {
                Ok(()) => {},
                Err(e) => {
                    return Err(e);
                },
            }
            proof {
                lemma_skip_newlines(t, self.pos as int);
            }
            self.skip_newlines();
            let ghost i3 = self.pos as int;
            proof {
                lemma_skip_newlines(t, i3);
            }
            let value = if self.is_newline_or_eof() {
                self.skip_newlines();
                let child_indent = self.current_indent();
                match self.parse_value(child_indent) {
                    Ok(v) => v,
                    Err(e) => {
                        return Err(e);
                    },
                }
            } else {
                match self.parse_value(indent) {
                    Ok(v) => v,
                    Err(e) => {
                        return Err(e);
                    },
                }
            };
            proof {
                lemma_skip_newlines(t, self.pos as int);
            }
            map_insert(&mut entries, key, value);
            self.skip_newlines();
        }
        self.leave();
        Ok(YamlValue::Mapping(entries))
    }

    fn parse_sequence(&mut self, indent: usize) -> (res: Result<YamlValue, YamlError>)
        requires
            old(self).wf(),
            old(self).depth <= MAX_DEPTH,
            indent <= 2 * old(self).depth,
            cur(old(self).toks(), old(self).pos as int) is Dash,
        ensures
            final(self).wf(),
            final(self).tokens == old(self).tokens,
            old(self).pos <= final(self).pos,
            final(self).pos as int == parse_sequence(
                old(self).toks(),
                old(self).pos as int,
                indent as int,
                old(self).depth as int,
            ).0,
            value_result(res) == parse_error(
                parse_sequence(old(self).toks(), old(self).pos as int, indent as int, old(self).depth as int).1,
            ),
            res is Ok ==> final(self).depth == old(self).depth,
            res is Ok ==> old(self).pos < final(self).pos,
            old(self).depth + 1 > MAX_DEPTH ==> final(self).depth == old(self).depth + 1
                && final(self).pos == old(self).pos,
        decreases old(self).tokens.len() - old(self).pos, 1int,
    {
        let ghost t = self.toks();
        let ghost i0 = self.pos as int;
        let ghost d = self.depth + 1;
        let ghost target = sequence_items(t, i0, indent as int, d as int, Seq::empty());
        match self.enter() {
            Ok(()) => {},
            Err(e) => {
                return Err(e);
            },
        }
        let mut items: Vec<YamlValue> = Vec::new();
        assert(view_items(items@) =~= Seq::empty());
        while self.is_dash()
            invariant_except_break
                sequence_items(t, self.pos as int, indent as int, d as int, view_items(items@))
                    == target,
            invariant
                self.wf(),
                self.tokens == old(self).tokens,
                self.toks() == t,
                t.len() == self.tokens.len(),
                self.depth == d,
                d == old(self).depth + 1,
                d <= MAX_DEPTH,
                indent <= 2 * (d - 1),
                i0 == old(self).pos,
                i0 <= self.pos,
                i0 == self.pos ==> items@.len() == 0 && cur(t, self.pos as int) is Dash,
                target == sequence_items(t, i0, indent as int, d as int, Seq::empty()),
            ensures
                self.wf(),
                self.tokens == old(self).tokens,
                self.toks() == t,
                self.depth == d,
                i0 < self.pos,
                target == (self.pos as int, Ok::<ValueView, Seq<char>>(
                    ValueView::Sequence(view_items(items@)),
                )),
            decreases t.len() - self.pos,
        {
            self.advance();
            proof {
                lemma_skip_newlines(t, self.pos as int);
            }
            self.skip_newlines();
            let value = match self.parse_value(indent + 2) {
                Ok(v) => v,
                Err(e) => {
                    return Err(e);
                },
            };
            let ghost before = items@;
            items.push(value);
            proof {
                lemma_view_items_push(before, value);
                lemma_skip_newlines(t, self.pos as int);
            }
            self.skip_newlines();
            if let Token::Indent(n) = self.current_token() {
                if *n < indent {
                    break;
                }
            }
        }
        self.leave();
        Ok(YamlValue::Sequence(items))
    }

    fn parse_scalar(&mut self) -> (res: Result<YamlValue, YamlError>)
        requires
            old(self).wf(),
        ensures
            final(self).wf(),
            final(self).tokens == old(self).tokens,
            final(self).depth == old(self).depth,
            cur(old(self).toks(), old(self).pos as int) matches TokenView::Scalar(s) ==> {
                &&& final(self).pos == old(self).pos + 1
                &&& value_result(res) == Ok::<ValueView, YamlErrorView>(crate::scalar::interpret(s))
            },
            !(cur(old(self).toks(), old(self).pos as int) is Scalar) ==> {
                &&& final(self).pos == old(self).pos
                &&& value_result(res) == Err::<ValueView, YamlErrorView>(
                    YamlErrorView::ParseError("expected scalar"@),
                )
            },
    {
        if let Token::Scalar(s) = self.current_token() {
            let value = interpret_scalar(s);
            self.advance();
            Ok(value)
        } else {
            Err(YamlError::ParseError(String::from_str("expected scalar")))
        }
    }

    fn current_token(&self) -> (t: &Token<'a>)
        requires
            self.wf(),
        ensures
            t@ == cur(self.toks(), self.pos as int),
    {
        if self.pos < self.tokens.len() {
            &self.tokens[self.pos]
        } else {
            &self.end
        }
    }

    fn advance(&mut self)
        requires
            old(self).wf(),
        ensures
            final(self).wf(),
            final(self).tokens == old(self).tokens,
            final(self).depth == old(self).depth,
            final(self).end == old(self).end,
            final(self).pos == if old(self).pos < old(self).tokens.len() {
                old(self).pos + 1
            } else {
                old(self).pos as int
            },
    {
        if self.pos < self.tokens.len() {
            self.pos = self.pos + 1;
        }
    }

    fn is_eof(&self) -> (b: bool)
        requires
            self.wf(),
        ensures
            b == (cur(self.toks(), self.pos as int) is Eof),
    {
        match self.current_token() {
            Token::Eof => true,
            _ => false,
        }
    }

    fn is_dash(&self) -> (b: bool)
        requires
            self.wf(),
        ensures
            b == (cur(self.toks(), self.pos as int) is Dash),
    {
        match self.current_token() {
            Token::Dash => true,
            _ => false,
        }
    }

    fn is_doc_start(&self) -> (b: bool)
        requires
            self.wf(),
        ensures
            b == (cur(self.toks(), self.pos as int) is DocStart),
    {
        match self.current_token() {
            Token::DocStart => true,
            _ => false,
        }
    }

    fn is_doc_end(&self) -> (b: bool)
        requires
            self.wf(),
        ensures
            b == (cur(self.toks(), self.pos as int) is DocEnd),
    {
        match self.current_token() {
            Token::DocEnd => true,
            _ => false,
        }
    }

    fn is_newline_or_eof(&self) -> (b: bool)
        requires
            self.wf(),
        ensures
            b == (cur(self.toks(), self.pos as int) is Newline || cur(self.toks(), self.pos as int) is Eof),
    {
        match self.current_token() {
            Token::Newline | Token::Eof => true,
            _ => false,
        }
    }

    fn peek_is_colon(&self) -> (b: bool)
        requires
            self.wf(),
        ensures
            b == peek_colon(self.toks(), self.pos as int),
    {
        if self.pos < self.tokens.len() && self.pos + 1 < self.tokens.len() {
            match &self.tokens[self.pos + 1] {
                Token::Colon => true,
                _ => false,
            }
        } else {
            false
        }
    }

    fn skip_newlines(&mut self)
        requires
            old(self).wf(),
        ensures
            final(self).wf(),
            final(self).tokens == old(self).tokens,
            final(self).depth == old(self).depth,
            final(self).end == old(self).end,
            final(self).pos == skip_newlines(old(self).toks(), old(self).pos as int),
    {
        let ghost t = self.toks();
        let ghost i0 = self.pos as int;
        loop
            invariant
                self.wf(),
                self.toks() == t,
                self.tokens == old(self).tokens,
                self.depth == old(self).depth,
                self.end == old(self).end,
                skip_newlines(t, self.pos as int) == skip_newlines(t, i0),
                i0 == old(self).pos,
            ensures
                self.wf(),
                self.tokens == old(self).tokens,
                self.depth == old(self).depth,
                self.end == old(self).end,
                self.pos == skip_newlines(t, i0),
            decreases self.tokens.len() - self.pos,
        {
            match self.current_token() {
                Token::Newline | Token::Indent(_) => {},
                _ => {
                    break;
                },
            }
            self.advance();
        }
    }

    fn current_indent(&self) -> (n: usize)
        requires
            self.wf(),
        ensures
            n == current_indent(self.toks(), self.pos as int),
    {
        if let Token::Indent(n) = self.current_token() {
            *n
        } else {
            0
        }
    }

    fn expect(&mut self, expected: Token<'a>) -> (res: Result<(), YamlError>)
        requires
            old(self).wf(),
        ensures
            final(self).wf(),
            final(self).tokens == old(self).tokens,
            final(self).depth == old(self).depth,
            final(self).end == old(self).end,
            same_kind(cur(old(self).toks(), old(self).pos as int), expected@) ==> {
                &&& res is Ok
                &&& final(self).pos == if old(self).pos < old(self).tokens.len() {
                    old(self).pos + 1
                } else {
                    old(self).pos as int
                }
            },
            !same_kind(cur(old(self).toks(), old(self).pos as int), expected@) ==> {
                &&& final(self).pos == old(self).pos
                &&& res matches Err(e) && e@ == YamlErrorView::ParseError(
                    expected_message(expected@, cur(old(self).toks(), old(self).pos as int)),
                )
            },
    {
        if same_kind_exec(self.current_token(), &expected) {
            self.advance();
            Ok(())
        } else {
            let mut m = String::from_str("expected ");
            let a = token_description(&expected);
            m.append(a.as_str());
            m.append(", got ");
            let b = token_description(self.current_token());
            m.append(b.as_str());
            Err(YamlError::ParseError(m))
        }
    }
}

} // verus!
