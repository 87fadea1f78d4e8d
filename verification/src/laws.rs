//! Properties of the library as a whole: what holds of every text and every
//! value, across the lexer, the parser and the emitter.
use vstd::prelude::*;
use crate::lexer::model::{
    char_at, double_quoted, single_quoted, unescape, lemma_next_token_progress, lemma_skip_comment_bounds, next_token, skip_comment, stream_from,
    tokens_from, MAX_DEPTH,
};
use crate::lexer::token::{SpannedView, TokenView};
use crate::lexer::tokens_outcome;
use crate::lexer::model::{is_unicode_ws, scalar_end, trim_end_pos, trim_start_pos, plain_scalar};
use crate::ast::ValueView;
use crate::emitter::model::{
    entries_height, height, items_height, double_quotes, entries_text, first_line, is_collection, items_text, join, needs_quoting, pad,
    string_text, value_text,
};
use crate::ast::{js_ordered, keys_distinct, lemma_map_set, map_set};
use crate::parser::model::{
    cur, documents, lemma_skip_newlines, mapping_entries, parse_mapping, parse_sequence,
    sequence_items, current_indent,
};
use crate::parser::parse_all_outcome;
use crate::parser::model::{expected_message, unexpected_token_message};
use crate::lexer::model::{
    depth_message, lemma_line_end_bounds, lemma_scalar_end_bounds, next_is_ws,
    prev_is_ws,
};
use crate::parser::model::{parse_value, skip_newlines};
use crate::parser::parse_outcome;
use crate::scalar::{all_digits, digits_value, interpret, is_digit, parse_int, strip_sign, has_sign};
use crate::text::{decimal, digit_char, signed_decimal};

verus! {

/// The tokens of a list of spanned tokens.
pub open spec fn span_tokens(a: Seq<SpannedView>) -> Seq<TokenView> {
    a.map_values(|x: SpannedView| x.token)
}

/// An indentation token is never wider than twice the nesting limit.
pub open spec fn indent_within_limit(t: TokenView) -> bool {
    t matches TokenView::Indent(n) ==> n <= 2 * MAX_DEPTH
}

proof fn lemma_single_quoted_kind(s: Seq<char>, p: int, acc: Seq<char>)
    ensures
        single_quoted(s, p, acc).1 matches Ok(t) ==> t is SingleQuoted,
    decreases s.len() - p,
{
    if 0 <= p < s.len() {
        if s[p] == '\'' {
            if char_at(s, p + 1) == '\'' {
                lemma_single_quoted_kind(s, p + 2, acc.push('\''));
            }
        } else {
            lemma_single_quoted_kind(s, p + 1, acc.push(s[p]));
        }
    }
}

proof fn lemma_double_quoted_kind(s: Seq<char>, p: int, acc: Seq<char>)
    ensures
        double_quoted(s, p, acc).1 matches Ok(t) ==> t is DoubleQuoted,
    decreases s.len() - p,
{
    if 0 <= p < s.len() && s[p] != '"' {
        if s[p] == '\\' {
            if let Some(e) = unescape(char_at(s, p + 1)) {
                lemma_double_quoted_kind(s, p + 2, acc.push(e));
            }
        } else {
            lemma_double_quoted_kind(s, p + 1, acc.push(s[p]));
        }
    }
}

proof fn lemma_next_token_indent(s: Seq<char>, p: int)
    requires
        0 <= p <= s.len(),
    ensures
        next_token(s, p).1 matches Ok(t) ==> indent_within_limit(t),
    decreases s.len() - p,
{
    lemma_skip_comment_bounds(s, p);
    let q = skip_comment(s, p);
    if q < s.len() {
        let c = s[q];
        if c == ' ' || c == '\t' {
            lemma_next_token_indent(s, q + 1);
        }
        crate::lexer::model::lemma_spaces_end_bounds(s, q);
        lemma_single_quoted_kind(s, q + 1, Seq::empty());
        lemma_double_quoted_kind(s, q + 1, Seq::empty());
    }
}

proof fn lemma_tokens_from_shape(s: Seq<char>, p: int, acc: Seq<SpannedView>)
    requires
        0 <= p <= s.len(),
        forall|i: int| 0 <= i < acc.len() ==> indent_within_limit(#[trigger] acc[i].token),
    ensures
        tokens_from(s, p, acc).1 matches Ok(ts) ==> {
            &&& ts.len() > acc.len()
            &&& ts.last().token is Eof
            &&& span_tokens(ts.drop_last()) == stream_from(s, p, span_tokens(acc))
            &&& forall|i: int| 0 <= i < ts.len() ==> indent_within_limit(#[trigger] ts[i].token)
        },
    decreases s.len() - p,
{
    if p < s.len() {
        lemma_next_token_progress(s, p);
        lemma_next_token_indent(s, p);
        let (q, r) = next_token(s, p);
        if let Ok(t) = r {
            let x = crate::lexer::model::spanned(s, q, t);
            let acc2 = acc.push(x);
            assert forall|i: int| 0 <= i < acc2.len() implies indent_within_limit(
                #[trigger] acc2[i].token,
            ) by {
                if i < acc.len() {
                    assert(acc2[i] == acc[i]);
                }
            }
            lemma_tokens_from_shape(s, q, acc2);
            assert(span_tokens(acc2) =~= span_tokens(acc).push(t));
        }
    } else {
        let ts = acc.push(crate::lexer::model::spanned(s, p, TokenView::Eof));
        assert(ts.drop_last() =~= acc);
        assert forall|i: int| 0 <= i < ts.len() implies indent_within_limit(#[trigger] ts[i].token) by {
            if i < acc.len() {
                assert(ts[i] == acc[i]);
            }
        }
    }
}

/// Tokenizing, when it succeeds, closes the list with one `Eof`, and every
/// indentation in the list is within the nesting limit.
pub proof fn law_tokens_end_with_eof(s: Seq<char>, p: int)
    requires
        0 <= p <= s.len(),
    ensures
        tokens_outcome(s, p) matches Ok(ts) ==> {
            &&& ts.len() > 0
            &&& ts.last().token is Eof
            &&& forall|i: int| 0 <= i < ts.len() ==> indent_within_limit(#[trigger] ts[i].token)
        },
{
    lemma_tokens_from_shape(s, p, Seq::empty());
}

/// Reading tokens one at a time (`Lexer::next`, which the parser reads from)
/// yields the tokens that `Lexer::tokenize` lists, all but the closing `Eof`,
/// whenever tokenizing succeeds.
pub proof fn law_next_agrees_with_tokenize(s: Seq<char>, p: int)
    requires
        0 <= p <= s.len(),
    ensures
        tokens_outcome(s, p) matches Ok(ts) ==> span_tokens(ts.drop_last()) == stream_from(
            s,
            p,
            Seq::empty(),
        ),
{
    lemma_tokens_from_shape(s, p, Seq::empty());
    assert(span_tokens(Seq::<SpannedView>::empty()) =~= Seq::<TokenView>::empty());
}

/// A character that a plain scalar may hold anywhere: no newline, colon, `#`
/// or white space.
pub open spec fn quiet_char(c: char) -> bool {
    c != '\n' && c != ':' && c != '#' && !is_unicode_ws(c)
}

/// Text that the lexer reads as one plain scalar: it holds no newline, colon or
/// `#`, neither begins nor ends with white space, and does not begin with a
/// quote, a point, or a minus sign that no digit follows.
pub open spec fn plain_word(w: Seq<char>) -> bool {
    &&& w.len() >= 1
    &&& forall|i: int| 0 <= i < w.len() ==> #[trigger] w[i] != '\n' && w[i] != ':' && w[i] != '#'
    &&& !is_unicode_ws(w[0])
    &&& !is_unicode_ws(w.last())
    &&& w[0] != '\'' && w[0] != '"' && w[0] != '.'
    &&& (w[0] == '-' ==> w.len() >= 2 && is_digit(w[1]))
}

/// Where a plain scalar stops: a newline, a colon that white space follows, or the end.
pub open spec fn scalar_stop(s: Seq<char>, k: int) -> bool {
    k >= s.len() || s[k] == '\n' || (s[k] == ':' && next_is_ws(s, k))
}

proof fn lemma_scalar_end_run(s: Seq<char>, p: int, k: int)
    requires
        0 <= p <= k <= s.len(),
        forall|i: int| p <= i < k ==> #[trigger] s[i] != '\n' && s[i] != ':' && s[i] != '#',
        scalar_stop(s, k),
    ensures
        scalar_end(s, p) == k,
    decreases k - p,
{
    if p < k {
        assert(s[p] != '\n' && s[p] != ':' && s[p] != '#');
        lemma_scalar_end_run(s, p + 1, k);
    }
}

/// A plain word at `p`, where a plain scalar stops, is read as that word.
proof fn lemma_plain_word_token(s: Seq<char>, p: int, w: Seq<char>)
    requires
        plain_word(w),
        0 <= p,
        p + w.len() <= s.len(),
        s.subrange(p, p + w.len()) == w,
        scalar_stop(s, p + w.len()),
    ensures
        next_token(s, p) == (p + w.len(), Ok::<TokenView, Seq<char>>(TokenView::Scalar(w))),
{
    let k = p + w.len();
    reveal_strlit("---");
    reveal_strlit("...");
    assert forall|i: int| p <= i < k implies #[trigger] s[i] != '\n' && s[i] != ':' && s[i] != '#' by {
        assert(s[i] == w[i - p]);
    }
    lemma_scalar_end_run(s, p, k);
    assert(s[p] == w[0]);
    assert(s[k - 1] == w.last());
    if w[0] == '-' {
        assert(s[p + 1] == w[1]);
    }
    assert(trim_start_pos(s, p, k) == p);
    assert(trim_end_pos(s, p, k) == k);
    assert(plain_scalar(s, p) == (k, Ok::<TokenView, Seq<char>>(TokenView::Scalar(w))));
    assert(skip_comment(s, p) == p);
}

/// A line holding one plain word is read as that word, then a newline.
proof fn lemma_plain_line_tokens(w: Seq<char>)
    requires
        plain_word(w),
    ensures
        stream_from(w.push('\n'), 0, Seq::empty()) == seq![TokenView::Scalar(w), TokenView::Newline],
        tokens_from(w.push('\n'), 0, Seq::empty()).1 matches Ok(ts) && span_tokens(ts) == seq![
            TokenView::Scalar(w),
            TokenView::Newline,
            TokenView::Eof,
        ],
{
    let t = w.push('\n');
    let k = w.len() as int;
    assert(t.subrange(0, k) =~= w);
    lemma_plain_word_token(t, 0, w);
    assert(skip_comment(t, k) == k);
    assert(next_token(t, k) == (k + 1, Ok::<TokenView, Seq<char>>(TokenView::Newline)));
    lemma_next_token_progress(t, 0);
    lemma_two_lines(t, k, TokenView::Scalar(w), TokenView::Newline);
}

/// Two tokens and then the end of the text.
proof fn lemma_two_lines(t: Seq<char>, k: int, a: TokenView, b: TokenView)
    requires
        0 < k < t.len(),
        next_token(t, 0) == (k, Ok::<TokenView, Seq<char>>(a)),
        next_token(t, k) == (t.len() as int, Ok::<TokenView, Seq<char>>(b)),
    ensures
        stream_from(t, 0, Seq::empty()) == seq![a, b],
        tokens_from(t, 0, Seq::empty()).1 matches Ok(ts) && span_tokens(ts) == seq![
            a,
            b,
            TokenView::Eof,
        ],
{
    let n = t.len() as int;
    assert(stream_from(t, n, seq![a, b]) == seq![a, b]);
    assert(seq![a].push(b) =~= seq![a, b]);
    assert(stream_from(t, k, seq![a]) == seq![a, b]);
    assert(Seq::<TokenView>::empty().push(a) =~= seq![a]);
    let sa = crate::lexer::model::spanned(t, k, a);
    let sb = crate::lexer::model::spanned(t, n, b);
    let se = crate::lexer::model::spanned(t, n, TokenView::Eof);
    let all = Seq::<SpannedView>::empty().push(sa).push(sb).push(se);
    assert(tokens_from(t, n, Seq::<SpannedView>::empty().push(sa).push(sb)).1 == Ok::<
        Seq<SpannedView>,
        Seq<char>,
    >(all));
    assert(tokens_from(t, k, Seq::<SpannedView>::empty().push(sa)).1 == Ok::<
        Seq<SpannedView>,
        Seq<char>,
    >(all));
    assert(span_tokens(all) =~= seq![a, b, TokenView::Eof]);
}

/// A line holding one plain word parses as what the word stands for.
proof fn lemma_plain_line_parses(w: Seq<char>)
    requires
        plain_word(w),
    ensures
        parse_outcome(w.push('\n')) == Ok::<ValueView, crate::error::YamlErrorView>(interpret(w)),
{
    lemma_plain_line_tokens(w);
    let t = seq![TokenView::Scalar(w), TokenView::Newline];
    assert(skip_newlines(t, 0) == 0);
    assert(parse_value(t, 0, 0, 0) == (1int, Ok::<ValueView, Seq<char>>(interpret(w))));
}

proof fn lemma_decimal(m: nat)
    ensures
        decimal(m).len() >= 1,
        all_digits(decimal(m)),
        digits_value(decimal(m)) == m,
        forall|i: int| 0 <= i < decimal(m).len() ==> quiet_char(#[trigger] decimal(m)[i]),
    decreases m,
{
    if m >= 10 {
        lemma_decimal(m / 10);
        let d = decimal(m / 10);
        let c = digit_char(m % 10);
        assert(decimal(m) == d.push(c));
        assert(d.push(c).drop_last() =~= d);
        assert(c as int == m % 10 + 48);
        assert(digits_value(d.push(c)) == digits_value(d) * 10 + (c as int - 48));
        assert((m / 10) * 10 + m % 10 == m);
        assert(digits_value(decimal(m)) == m);
        assert(is_digit(c));
        assert forall|i: int| 0 <= i < d.len() + 1 implies is_digit(#[trigger] d.push(c)[i]) by {
            if i < d.len() {
                assert(d.push(c)[i] == d[i]);
            }
        }
        assert forall|i: int| 0 <= i < d.len() + 1 implies quiet_char(#[trigger] d.push(c)[i]) by {
            if i < d.len() {
                assert(d.push(c)[i] == d[i]);
            }
        }
    } else {
        let c = digit_char(m);
        assert(decimal(m) == seq![c]);
        assert(seq![c].drop_last() =~= Seq::<char>::empty());
        assert(c as int == m + 48);
        assert(digits_value(seq![c]) == digits_value(Seq::<char>::empty()) * 10 + (c as int - 48));
        assert(digits_value(decimal(m)) == m);
    }
}

/// The decimal text of an integer reads back as that integer (`i64::from_str`).
pub proof fn law_decimal_reads_back(n: i64)
    ensures
        parse_int(signed_decimal(n as int)) == Some(n),
        interpret(signed_decimal(n as int)) == ValueView::Int(n),
{
    reveal_strlit("null");
    reveal_strlit("~");
    reveal_strlit("true");
    reveal_strlit("yes");
    reveal_strlit("false");
    reveal_strlit("no");
    let w = signed_decimal(n as int);
    if n < 0 {
        let m = (-n) as nat;
        lemma_decimal(m);
        assert(w == seq!['-'] + decimal(m));
        assert(w.drop_first() =~= decimal(m));
        assert(has_sign(w, '-'));
        assert(strip_sign(w) == decimal(m));
    } else {
        lemma_decimal(n as nat);
        assert(is_digit(w[0]));
        assert(strip_sign(w) == w);
    }
}

proof fn lemma_signed_decimal_plain(n: i64)
    ensures
        plain_word(signed_decimal(n as int)),
{
    let w = signed_decimal(n as int);
    if n < 0 {
        let m = (-n) as nat;
        lemma_decimal(m);
        assert(w == seq!['-'] + decimal(m));
        assert forall|i: int| 0 <= i < w.len() implies #[trigger] w[i] != '\n' && w[i] != ':'
            && w[i] != '#' by {
            if i > 0 {
                assert(w[i] == decimal(m)[i - 1]);
                assert(quiet_char(decimal(m)[i - 1]));
            }
        }
        assert(w[1] == decimal(m)[0]);
        assert(quiet_char(decimal(m)[0]));
        assert(is_digit(decimal(m)[0]));
        assert(w.last() == decimal(m).last());
        assert(quiet_char(decimal(m)[decimal(m).len() - 1]));
    } else {
        lemma_decimal(n as nat);
        let d = decimal(n as nat);
        assert forall|i: int| 0 <= i < w.len() implies #[trigger] w[i] != '\n' && w[i] != ':'
            && w[i] != '#' by {
            assert(quiet_char(d[i]));
        }
        assert(quiet_char(d[0]));
        assert(quiet_char(d[d.len() - 1]));
        assert(is_digit(d[0]));
    }
}

/// Null, a boolean or an integer, written as YAML text, reads back as itself.
pub proof fn law_scalar_round_trip(v: ValueView)
    requires
        v is Null || v is Bool || v is Int,
    ensures
        parse_outcome(value_text(v, 0)) == Ok::<ValueView, crate::error::YamlErrorView>(v),
{
    reveal_strlit("\n");
    reveal_strlit("null\n");
    reveal_strlit("true\n");
    reveal_strlit("false\n");
    reveal_strlit("null");
    reveal_strlit("true");
    reveal_strlit("false");
    reveal_strlit("~");
    reveal_strlit("yes");
    reveal_strlit("no");
    match v {
        ValueView::Null => {
            let w = "null"@;
            assert(value_text(v, 0) =~= w.push('\n'));
            lemma_plain_line_parses(w);
        },
        ValueView::Bool(b) => {
            if b {
                let w = "true"@;
                assert(value_text(v, 0) =~= w.push('\n'));
                lemma_plain_line_parses(w);
            } else {
                let w = "false"@;
                assert(value_text(v, 0) =~= w.push('\n'));
                lemma_plain_line_parses(w);
            }
        },
        ValueView::Int(n) => {
            let w = signed_decimal(n as int);
            assert(value_text(v, 0) =~= w.push('\n'));
            lemma_signed_decimal_plain(n);
            lemma_plain_line_parses(w);
            law_decimal_reads_back(n);
        },
        _ => {},
    }
}

/// How the emitter writes one character inside single quotes.
pub open spec fn quote_piece(c: char) -> Seq<char> {
    if c == '\'' {
        seq!['\'', '\'']
    } else {
        seq![c]
    }
}

proof fn lemma_double_quotes_front(s: Seq<char>)
    requires
        s.len() > 0,
    ensures
        double_quotes(s) == quote_piece(s[0]) + double_quotes(s.drop_first()),
    decreases s.len(),
{
    if s.len() == 1 {
        assert(s.drop_last() =~= Seq::<char>::empty());
        assert(s.drop_first() =~= Seq::<char>::empty());
        assert(double_quotes(s) =~= quote_piece(s[0]) + double_quotes(s.drop_first()));
    } else {
        lemma_double_quotes_front(s.drop_last());
        assert(s.drop_last().drop_first() =~= s.drop_first().drop_last());
        assert(s.drop_last()[0] == s[0]);
        assert(s.drop_first().last() == s.last());
        assert(double_quotes(s) =~= quote_piece(s[0]) + double_quotes(s.drop_first()));
    }
}

/// Reading a single-quoted body that holds `s` with its quotes doubled, closed
/// by a quote that no second quote follows, yields `s`.
proof fn lemma_read_quoted(t: Seq<char>, p: int, s: Seq<char>, acc: Seq<char>)
    requires
        0 <= p,
        p + double_quotes(s).len() < t.len(),
        t.subrange(p, p + double_quotes(s).len()) == double_quotes(s),
        t[p + double_quotes(s).len()] == '\'',
        char_at(t, p + double_quotes(s).len() + 1) != '\'',
    ensures
        single_quoted(t, p, acc) == (
            p + double_quotes(s).len() + 1,
            Ok::<TokenView, Seq<char>>(TokenView::SingleQuoted(acc + s)),
        ),
    decreases s.len(),
{
    if s.len() == 0 {
        assert(acc + s =~= acc);
    } else {
        lemma_double_quotes_front(s);
        let c = s[0];
        let rest = s.drop_first();
        let l = double_quotes(s).len();
        let lr = double_quotes(rest).len();
        assert(t[p] == double_quotes(s)[0]) by {
            assert(t.subrange(p, p + l)[0] == t[p]);
        }
        if c == '\'' {
            assert(t[p + 1] == double_quotes(s)[1]) by {
                assert(t.subrange(p, p + l)[1] == t[p + 1]);
            }
            assert(t.subrange(p + 2, p + 2 + lr) =~= double_quotes(rest)) by {
                assert forall|i: int| 0 <= i < lr implies t.subrange(p + 2, p + 2 + lr)[i]
                    == double_quotes(rest)[i] by {
                    assert(t.subrange(p, p + l)[i + 2] == t[p + 2 + i]);
                }
            }
            lemma_read_quoted(t, p + 2, rest, acc.push('\''));
            assert(acc.push('\'') + rest =~= acc + s);
        } else {
            assert(t.subrange(p + 1, p + 1 + lr) =~= double_quotes(rest)) by {
                assert forall|i: int| 0 <= i < lr implies t.subrange(p + 1, p + 1 + lr)[i]
                    == double_quotes(rest)[i] by {
                    assert(t.subrange(p, p + l)[i + 1] == t[p + 1 + i]);
                }
            }
            lemma_read_quoted(t, p + 1, rest, acc.push(c));
            assert(acc.push(c) + rest =~= acc + s);
        }
    }
}

/// A string that the emitter must quote, on one line, reads back as itself:
/// the quoting that the emitter writes is undone by the lexer.
pub proof fn law_quoted_string_round_trip(s: Seq<char>)
    requires
        !s.contains('\n'),
        needs_quoting(s),
    ensures
        parse_outcome(value_text(ValueView::Str(s), 0)) == Ok::<
            ValueView,
            crate::error::YamlErrorView,
        >(ValueView::Str(s)),
{
    reveal_strlit("'");
    reveal_strlit("'\n");
    reveal_strlit("---");
    reveal_strlit("...");
    let q = double_quotes(s);
    let l = q.len() as int;
    let t = seq!['\''] + q + seq!['\'', '\n'];
    assert(string_text(s) =~= t);
    assert(t.subrange(1, 1 + l) =~= q);
    assert(t[1 + l] == '\'');
    assert(t[2 + l] == '\n');
    lemma_read_quoted(t, 1, s, Seq::empty());
    assert(Seq::<char>::empty() + s =~= s);
    assert(skip_comment(t, 0) == 0);
    assert(next_token(t, 0) == (2 + l, Ok::<TokenView, Seq<char>>(TokenView::SingleQuoted(s))));
    assert(skip_comment(t, 2 + l) == 2 + l);
    assert(next_token(t, 2 + l) == (3 + l, Ok::<TokenView, Seq<char>>(TokenView::Newline)));
    lemma_next_token_progress(t, 0);
    let toks = seq![TokenView::SingleQuoted(s), TokenView::Newline];
    assert(seq![TokenView::SingleQuoted(s)].push(TokenView::Newline) =~= toks);
    assert(stream_from(t, 3 + l, toks) == toks);
    assert(stream_from(t, 2 + l, seq![TokenView::SingleQuoted(s)]) == toks);
    assert(Seq::<TokenView>::empty().push(TokenView::SingleQuoted(s)) =~= seq![
        TokenView::SingleQuoted(s),
    ]);
    assert(stream_from(t, 0, Seq::empty()) == toks);
    assert(skip_newlines(toks, 0) == 0);
    assert(parse_value(toks, 0, 0, 0) == (1int, Ok::<ValueView, Seq<char>>(ValueView::Str(s))));
}

/// A plain word that the emitter writes unquoted reads back as itself whenever
/// it reads as a string at all.
pub proof fn law_plain_string_round_trip(s: Seq<char>)
    requires
        plain_word(s),
        !needs_quoting(s),
        interpret(s) == ValueView::Str(s),
    ensures
        parse_outcome(value_text(ValueView::Str(s), 0)) == Ok::<
            ValueView,
            crate::error::YamlErrorView,
        >(ValueView::Str(s)),
{
    reveal_strlit("\n");
    assert(!s.contains('\n')) by {
        if s.contains('\n') {
            let i = choose|i: int| 0 <= i < s.len() && s[i] == '\n';
            assert(quiet_char(s[i]));
        }
    }
    assert(string_text(s) =~= s.push('\n'));
    lemma_plain_line_parses(s);
}

/// Text that is empty or ends with a newline.
pub open spec fn ends_line(x: Seq<char>) -> bool {
    x.len() == 0 || x.last() == '\n'
}

proof fn lemma_concat_ends_line(a: Seq<char>, b: Seq<char>)
    requires
        ends_line(b),
        b.len() > 0 || ends_line(a),
    ensures
        ends_line(a + b),
{
    if b.len() > 0 {
        assert((a + b).last() == b.last());
    } else {
        assert(a + b =~= a);
    }
}

proof fn lemma_string_text_ends_line(s: Seq<char>)
    ensures
        string_text(s).len() > 0,
        ends_line(string_text(s)),
{
    reveal_strlit("\n");
    reveal_strlit("'\n");
    lemma_concat_ends_line("|-\n  "@ + join(lines_of(s), "\n  "@), "\n"@);
    lemma_concat_ends_line("'"@ + double_quotes(s), "'\n"@);
    lemma_concat_ends_line(s, "\n"@);
}

spec fn lines_of(s: Seq<char>) -> Seq<Seq<char>> {
    crate::emitter::model::lines(s)
}

/// Everything the emitter writes for a value is whole lines: the text is empty
/// or ends with a newline, and a scalar always writes at least one line.
pub proof fn law_text_is_whole_lines(v: ValueView, indent: nat)
    ensures
        ends_line(value_text(v, indent)),
        !is_collection(v) ==> value_text(v, indent).len() > 0,
    decreases v,
{
    reveal_strlit("\n");
    reveal_strlit("null\n");
    reveal_strlit("true\n");
    reveal_strlit("false\n");
    match v {
        ValueView::Int(n) => {
            lemma_concat_ends_line(signed_decimal(n as int), "\n"@);
        },
        ValueView::Float(t) => {
            lemma_concat_ends_line(t, "\n"@);
        },
        ValueView::Str(s) => {
            lemma_string_text_ends_line(s);
        },
        ValueView::Sequence(items) => {
            lemma_items_text_whole_lines(items, indent);
        },
        ValueView::Mapping(entries) => {
            lemma_entries_text_whole_lines(entries, indent);
        },
        _ => {},
    }
}

proof fn lemma_items_text_whole_lines(items: Seq<ValueView>, indent: nat)
    ensures
        ends_line(items_text(items, indent)),
    decreases items,
{
    reveal_strlit("\n");
    reveal_strlit("-\n");
    if items.len() > 0 {
        let x = items[items.len() - 1];
        lemma_items_text_whole_lines(items.subrange(0, items.len() - 1), indent);
        let piece = if is_collection(x) {
            law_text_is_whole_lines(x, indent + 2);
            lemma_concat_ends_line(pad(indent) + "-\n"@, value_text(x, indent + 2));
            pad(indent) + "-\n"@ + value_text(x, indent + 2)
        } else {
            lemma_concat_ends_line(pad(indent) + "- "@ + first_line(value_text(x, indent)), "\n"@);
            pad(indent) + "- "@ + first_line(value_text(x, indent)) + "\n"@
        };
        lemma_concat_ends_line(items_text(items.subrange(0, items.len() - 1), indent), piece);
    }
}

proof fn lemma_entries_text_whole_lines(entries: Seq<(Seq<char>, ValueView)>, indent: nat)
    ensures
        ends_line(entries_text(entries, indent)),
    decreases entries,
{
    reveal_strlit("\n");
    reveal_strlit(":\n");
    if entries.len() > 0 {
        let (k, x) = entries[entries.len() - 1];
        lemma_entries_text_whole_lines(entries.subrange(0, entries.len() - 1), indent);
        let piece = if is_collection(x) {
            law_text_is_whole_lines(x, indent + 2);
            lemma_concat_ends_line(pad(indent) + k + ":\n"@, value_text(x, indent + 2));
            pad(indent) + k + ":\n"@ + value_text(x, indent + 2)
        } else {
            lemma_concat_ends_line(pad(indent) + k + ": "@ + first_line(value_text(x, indent)), "\n"@);
            pad(indent) + k + ": "@ + first_line(value_text(x, indent)) + "\n"@
        };
        lemma_concat_ends_line(entries_text(entries.subrange(0, entries.len() - 1), indent), piece);
    }
}

/// Every mapping inside `v` has the keys of a JavaScript object: no key twice,
/// array indexes first in ascending order, then the other keys.
pub open spec fn keys_like_object(v: ValueView) -> bool
    decreases v,
{
    match v {
        ValueView::Sequence(items) => items_keys_like_object(items),
        ValueView::Mapping(entries) => keys_distinct(entries) && js_ordered(entries)
            && entries_keys_like_object(entries),
        _ => true,
    }
}

pub open spec fn items_keys_like_object(items: Seq<ValueView>) -> bool
    decreases items,
{
    items.len() == 0 || (items_keys_like_object(items.subrange(0, items.len() - 1)) && keys_like_object(
        items[items.len() - 1],
    ))
}

pub open spec fn entries_keys_like_object(entries: Seq<(Seq<char>, ValueView)>) -> bool
    decreases entries,
{
    entries.len() == 0 || (entries_keys_like_object(entries.subrange(0, entries.len() - 1))
        && keys_like_object(entries[entries.len() - 1].1))
}

proof fn lemma_entries_keys_like_object(e: Seq<(Seq<char>, ValueView)>)
    ensures
        entries_keys_like_object(e) <==> forall|i: int| 0 <= i < e.len() ==> keys_like_object(#[trigger] e[i].1),
    decreases e.len(),
{
    if e.len() > 0 {
        let f = e.subrange(0, e.len() - 1);
        lemma_entries_keys_like_object(f);
        if forall|i: int| 0 <= i < e.len() ==> keys_like_object(#[trigger] e[i].1) {
            assert forall|i: int| 0 <= i < f.len() implies keys_like_object(#[trigger] f[i].1) by {
                assert(f[i] == e[i]);
            }
            assert(keys_like_object(e[e.len() - 1].1));
        }
        if entries_keys_like_object(e) {
            assert forall|i: int| 0 <= i < e.len() implies keys_like_object(#[trigger] e[i].1) by {
                if i < f.len() {
                    assert(f[i] == e[i]);
                    assert(keys_like_object(f[i].1));
                }
            }
        }
    }
}

proof fn lemma_map_set_distinct(e: Seq<(Seq<char>, ValueView)>, k: Seq<char>, v: ValueView)
    requires
        keys_distinct(e),
        js_ordered(e),
        entries_keys_like_object(e),
        keys_like_object(v),
    ensures
        keys_distinct(map_set(e, k, v)),
        js_ordered(map_set(e, k, v)),
        entries_keys_like_object(map_set(e, k, v)),
{
    lemma_map_set(e, k, v);
    crate::ast::lemma_map_set_ordered(e, k, v);
    lemma_entries_keys_like_object(e);
    let r = map_set(e, k, v);
    lemma_entries_keys_like_object(r);
    crate::ast::lemma_map_set_members(e, k, v);
    assert forall|i: int| 0 <= i < r.len() implies keys_like_object(#[trigger] r[i].1) by {
        if r[i] != (k, v) {
            let p = choose|p: int| 0 <= p < e.len() && r[i] == e[p];
            assert(keys_like_object(e[p].1));
        }
    }
}

proof fn lemma_interpret_flat(s: Seq<char>)
    ensures
        keys_like_object(interpret(s)),
{
}

proof fn lemma_value_distinct(t: Seq<TokenView>, i: int, indent: int, depth: int)
    ensures
        parse_value(t, i, indent, depth).1 matches Ok(v) ==> keys_like_object(v),
    decreases t.len() - i, 2int,
{
    match cur(t, i) {
        TokenView::Dash => lemma_sequence_distinct(t, i, indent, depth),
        TokenView::Scalar(s) => {
            if peek_colon_at(t, i) {
                lemma_mapping_distinct(t, i, indent, depth);
            } else {
                lemma_interpret_flat(s);
            }
        },
        TokenView::DocStart => {
            lemma_skip_newlines(t, i + 1);
            lemma_value_distinct(t, skip_newlines(t, i + 1), indent, depth);
        },
        _ => {},
    }
}

spec fn peek_colon_at(t: Seq<TokenView>, i: int) -> bool {
    crate::parser::model::peek_colon(t, i)
}

proof fn lemma_sequence_distinct(t: Seq<TokenView>, i: int, indent: int, depth: int)
    ensures
        parse_sequence(t, i, indent, depth).1 matches Ok(v) ==> keys_like_object(v),
    decreases t.len() - i, 1int,
{
    if depth + 1 <= MAX_DEPTH {
        lemma_items_distinct(t, i, indent, depth + 1, Seq::empty());
    }
}

proof fn lemma_items_distinct(
    t: Seq<TokenView>,
    i: int,
    indent: int,
    depth: int,
    acc: Seq<ValueView>,
)
    requires
        items_keys_like_object(acc),
    ensures
        sequence_items(t, i, indent, depth, acc).1 matches Ok(v) ==> keys_like_object(v),
    decreases t.len() - i, 0int,
{
    if cur(t, i) is Dash {
        lemma_skip_newlines(t, i + 1);
        let j = skip_newlines(t, i + 1);
        lemma_value_distinct(t, j, indent + 2, depth);
        let (k, r) = parse_value(t, j, indent + 2, depth);
        if let Ok(v) = r {
            let m = skip_newlines(t, k);
            let items = acc.push(v);
            assert(items.subrange(0, acc.len() as int) =~= acc);
            assert(items_keys_like_object(items));
            if !(cur(t, m) matches TokenView::Indent(n) && n < indent) && i < m <= t.len() {
                lemma_items_distinct(t, m, indent, depth, items);
            }
        }
    }
}

proof fn lemma_mapping_distinct(t: Seq<TokenView>, i: int, indent: int, depth: int)
    ensures
        parse_mapping(t, i, indent, depth).1 matches Ok(v) ==> keys_like_object(v),
    decreases t.len() - i, 1int,
{
    if depth + 1 <= MAX_DEPTH {
        lemma_entries_distinct(t, i, indent, depth + 1, Seq::empty());
    }
}

proof fn lemma_entries_distinct(
    t: Seq<TokenView>,
    i: int,
    indent: int,
    depth: int,
    acc: Seq<(Seq<char>, ValueView)>,
)
    requires
        keys_distinct(acc),
        js_ordered(acc),
        entries_keys_like_object(acc),
    ensures
        mapping_entries(t, i, indent, depth, acc).1 matches Ok(v) ==> keys_like_object(v),
    decreases t.len() - i, 0int,
{
    if !(cur(t, i) is Eof) && !(cur(t, i) matches TokenView::Indent(n) && n < indent) {
        let i1 = if cur(t, i) is Indent {
            i + 1
        } else {
            i
        };
        if let TokenView::Scalar(key) = cur(t, i1) {
            if cur(t, i1 + 1) is Colon {
                lemma_skip_newlines(t, i1 + 2);
                let i3 = skip_newlines(t, i1 + 2);
                lemma_skip_newlines(t, i3);
                let j = skip_newlines(t, i3);
                if cur(t, i3) is Newline || cur(t, i3) is Eof {
                    lemma_value_distinct(t, j, current_indent(t, j), depth);
                } else {
                    lemma_value_distinct(t, i3, indent, depth);
                }
                let (i4, r) = if cur(t, i3) is Newline || cur(t, i3) is Eof {
                    parse_value(t, j, current_indent(t, j), depth)
                } else {
                    parse_value(t, i3, indent, depth)
                };
                if let Ok(v) = r {
                    let i5 = skip_newlines(t, i4);
                    lemma_map_set_distinct(acc, key, v);
                    if i < i5 <= t.len() {
                        lemma_entries_distinct(t, i5, indent, depth, map_set(acc, key, v));
                    }
                }
            }
        }
    }
}

proof fn lemma_documents_distinct(t: Seq<TokenView>, i: int, acc: Seq<ValueView>)
    requires
        forall|k: int| 0 <= k < acc.len() ==> keys_like_object(#[trigger] acc[k]),
    ensures
        documents(t, i, acc) matches Ok(docs) ==> forall|k: int|
            0 <= k < docs.len() ==> keys_like_object(#[trigger] docs[k]),
    decreases t.len() - i,
{
    let i1 = skip_newlines(t, i);
    if !(cur(t, i1) is Eof) {
        let i2 = if cur(t, i1) is DocStart {
            skip_newlines(t, i1 + 1)
        } else {
            i1
        };
        if !(cur(t, i2) is Eof) {
            lemma_value_distinct(t, i2, 0, 0);
            let (i3, r) = parse_value(t, i2, 0, 0);
            if let Ok(v) = r {
                let acc2 = acc.push(v);
                assert forall|k: int| 0 <= k < acc2.len() implies keys_like_object(#[trigger] acc2[k]) by {
                    if k < acc.len() {
                        assert(acc2[k] == acc[k]);
                    }
                }
                let i4 = skip_newlines(t, i3);
                let i5 = if cur(t, i4) is DocEnd {
                    i4 + 1
                } else {
                    i4
                };
                if i < i5 <= t.len() {
                    lemma_documents_distinct(t, i5, acc2);
                }
            }
        }
    }
}

/// A parsed mapping has the keys of a JavaScript object: never a key twice (a key
/// that comes again sets the value of the entry with that key), array indexes
/// first in ascending order, then the other keys in the order they first came.
/// This holds at every depth and for every document of a text.
pub proof fn law_parsed_keys_like_object(s: Seq<char>)
    ensures
        parse_outcome(s) matches Ok(v) ==> keys_like_object(v),
        parse_all_outcome(s) matches Ok(docs) ==> forall|k: int|
            0 <= k < docs.len() ==> keys_like_object(#[trigger] docs[k]),
{
    let t = crate::parser::token_stream_of(s);
    lemma_value_distinct(t, skip_newlines(t, 0), 0, 0);
    lemma_documents_distinct(t, 0, Seq::empty());
}

proof fn lemma_documents_prefix(t: Seq<TokenView>, i: int, acc: Seq<ValueView>)
    ensures
        documents(t, i, acc) matches Ok(docs) ==> docs.len() >= acc.len() && docs.subrange(
            0,
            acc.len() as int,
        ) == acc,
    decreases t.len() - i,
{
    let i1 = skip_newlines(t, i);
    if !(cur(t, i1) is Eof) {
        let i2 = if cur(t, i1) is DocStart {
            skip_newlines(t, i1 + 1)
        } else {
            i1
        };
        if !(cur(t, i2) is Eof) {
            let (i3, r) = parse_value(t, i2, 0, 0);
            if let Ok(v) = r {
                let i4 = skip_newlines(t, i3);
                let i5 = if cur(t, i4) is DocEnd {
                    i4 + 1
                } else {
                    i4
                };
                if i < i5 <= t.len() {
                    lemma_documents_prefix(t, i5, acc.push(v));
                    if let Ok(docs) = documents(t, i5, acc.push(v)) {
                        assert(docs.subrange(0, acc.len() as int) =~= docs.subrange(
                            0,
                            acc.len() + 1int,
                        ).subrange(0, acc.len() as int));
                        assert(acc.push(v).subrange(0, acc.len() as int) =~= acc);
                    }
                } else {
                    assert(acc.push(v).subrange(0, acc.len() as int) =~= acc);
                }
            }
        }
    } else {
        assert(acc.subrange(0, acc.len() as int) =~= acc);
    }
}

/// Reading one document reads the first of the documents that reading them all
/// yields: the same value, null when there is none, or the same error.
pub proof fn law_parse_reads_first_document(s: Seq<char>)
    ensures
        parse_all_outcome(s) matches Ok(docs) ==> {
            &&& docs.len() == 0 ==> parse_outcome(s) == Ok::<
                ValueView,
                crate::error::YamlErrorView,
            >(ValueView::Null)
            &&& docs.len() > 0 ==> parse_outcome(s) == Ok::<
                ValueView,
                crate::error::YamlErrorView,
            >(docs[0])
        },
        parse_outcome(s) is Err ==> parse_all_outcome(s) == match parse_outcome(s) {
            Ok(v) => Ok(seq![v]),
            Err(e) => Err::<Seq<ValueView>, crate::error::YamlErrorView>(e),
        },
{
    let t = crate::parser::token_stream_of(s);
    let i1 = skip_newlines(t, 0);
    lemma_skip_newlines(t, 0);
    if cur(t, i1) is DocStart {
        lemma_skip_newlines(t, i1 + 1);
        assert(parse_value(t, i1, 0, 0) == parse_value(t, skip_newlines(t, i1 + 1), 0, 0));
    }
    let i2 = if cur(t, i1) is DocStart {
        skip_newlines(t, i1 + 1)
    } else {
        i1
    };
    if !(cur(t, i1) is Eof) && !(cur(t, i2) is Eof) {
        let (i3, r) = parse_value(t, i2, 0, 0);
        if let Ok(v) = r {
            let i4 = skip_newlines(t, i3);
            let i5 = if cur(t, i4) is DocEnd {
                i4 + 1
            } else {
                i4
            };
            if 0 < i5 <= t.len() {
                lemma_documents_prefix(t, i5, seq![v]);
                assert(Seq::<ValueView>::empty().push(v) =~= seq![v]);
                if let Ok(docs) = documents(t, i5, seq![v]) {
                    assert(docs[0] == docs.subrange(0, 1)[0]);
                }
            } else {
                assert(Seq::<ValueView>::empty().push(v) =~= seq![v]);
            }
        }
    }
}

proof fn lemma_items_height_bound(items: Seq<ValueView>, b: int)
    ensures
        items_height(items) <= b <==> (b >= 0 && forall|k: int| 0 <= k < items.len() ==> height(#[trigger] items[k]) <= b),
    decreases items.len(),
{
    if items.len() > 0 {
        let f = items.subrange(0, items.len() - 1);
        lemma_items_height_bound(f, b);
        assert forall|k: int| 0 <= k < f.len() implies #[trigger] f[k] == items[k] by {}
        if b >= 0 && forall|k: int| 0 <= k < items.len() ==> height(#[trigger] items[k]) <= b {
            assert forall|k: int| 0 <= k < f.len() implies height(#[trigger] f[k]) <= b by {
                assert(f[k] == items[k]);
            }
            assert(height(items[items.len() - 1]) <= b);
        }
        if items_height(items) <= b {
            assert forall|k: int| 0 <= k < items.len() implies height(#[trigger] items[k]) <= b by {
                if k < f.len() {
                    assert(f[k] == items[k]);
                    assert(height(f[k]) <= b);
                }
            }
        }
    }
}

proof fn lemma_entries_height_bound(e: Seq<(Seq<char>, ValueView)>, b: int)
    ensures
        entries_height(e) <= b <==> (b >= 0 && forall|k: int| 0 <= k < e.len() ==> height(#[trigger] e[k].1) <= b),
    decreases e.len(),
{
    if e.len() > 0 {
        let f = e.subrange(0, e.len() - 1);
        lemma_entries_height_bound(f, b);
        if b >= 0 && forall|k: int| 0 <= k < e.len() ==> height(#[trigger] e[k].1) <= b {
            assert forall|k: int| 0 <= k < f.len() implies height(#[trigger] f[k].1) <= b by {
                assert(f[k] == e[k]);
            }
            assert(height(e[e.len() - 1].1) <= b);
        }
        if entries_height(e) <= b {
            assert forall|k: int| 0 <= k < e.len() implies height(#[trigger] e[k].1) <= b by {
                if k < f.len() {
                    assert(f[k] == e[k]);
                    assert(height(f[k].1) <= b);
                }
            }
        }
    }
}

proof fn lemma_value_height(t: Seq<TokenView>, i: int, indent: int, depth: int)
    requires
        0 <= depth <= MAX_DEPTH,
    ensures
        parse_value(t, i, indent, depth).1 matches Ok(v) ==> height(v) + depth <= MAX_DEPTH,
    decreases t.len() - i, 2int,
{
    match cur(t, i) {
        TokenView::Dash => lemma_sequence_height(t, i, indent, depth),
        TokenView::Scalar(s) => {
            if peek_colon_at(t, i) {
                lemma_mapping_height(t, i, indent, depth);
            }
        },
        TokenView::DocStart => {
            lemma_skip_newlines(t, i + 1);
            lemma_value_height(t, skip_newlines(t, i + 1), indent, depth);
        },
        _ => {},
    }
}

proof fn lemma_sequence_height(t: Seq<TokenView>, i: int, indent: int, depth: int)
    requires
        0 <= depth <= MAX_DEPTH,
    ensures
        parse_sequence(t, i, indent, depth).1 matches Ok(v) ==> height(v) + depth <= MAX_DEPTH,
    decreases t.len() - i, 1int,
{
    if depth + 1 <= MAX_DEPTH {
        lemma_items_height_bound(Seq::empty(), MAX_DEPTH - depth - 1);
        lemma_items_height(t, i, indent, depth + 1, Seq::empty());
    }
}

proof fn lemma_items_height(
    t: Seq<TokenView>,
    i: int,
    indent: int,
    depth: int,
    acc: Seq<ValueView>,
)
    requires
        1 <= depth <= MAX_DEPTH,
        items_height(acc) <= MAX_DEPTH - depth,
    ensures
        sequence_items(t, i, indent, depth, acc).1 matches Ok(v) ==> height(v) + depth <= MAX_DEPTH
            + 1,
    decreases t.len() - i, 0int,
{
    if cur(t, i) is Dash {
        lemma_skip_newlines(t, i + 1);
        let j = skip_newlines(t, i + 1);
        lemma_value_height(t, j, indent + 2, depth);
        let (k, r) = parse_value(t, j, indent + 2, depth);
        if let Ok(v) = r {
            let m = skip_newlines(t, k);
            let items = acc.push(v);
            lemma_items_height_bound(acc, MAX_DEPTH - depth);
            lemma_items_height_bound(items, MAX_DEPTH - depth);
            assert forall|q: int| 0 <= q < items.len() implies height(#[trigger] items[q])
                <= MAX_DEPTH - depth by {
                if q < acc.len() {
                    assert(items[q] == acc[q]);
                }
            }
            if !(cur(t, m) matches TokenView::Indent(n) && n < indent) && i < m <= t.len() {
                lemma_items_height(t, m, indent, depth, items);
            }
        }
    }
}

proof fn lemma_mapping_height(t: Seq<TokenView>, i: int, indent: int, depth: int)
    requires
        0 <= depth <= MAX_DEPTH,
    ensures
        parse_mapping(t, i, indent, depth).1 matches Ok(v) ==> height(v) + depth <= MAX_DEPTH,
    decreases t.len() - i, 1int,
{
    if depth + 1 <= MAX_DEPTH {
        lemma_entries_height_bound(Seq::empty(), MAX_DEPTH - depth - 1);
        lemma_entries_height(t, i, indent, depth + 1, Seq::empty());
    }
}

proof fn lemma_map_set_height(e: Seq<(Seq<char>, ValueView)>, k: Seq<char>, v: ValueView, b: int)
    requires
        entries_height(e) <= b,
        height(v) <= b,
    ensures
        entries_height(map_set(e, k, v)) <= b,
{
    lemma_entries_height_bound(e, b);
    let r = map_set(e, k, v);
    lemma_entries_height_bound(r, b);
    crate::ast::lemma_map_set_members(e, k, v);
    assert forall|q: int| 0 <= q < r.len() implies height(#[trigger] r[q].1) <= b by {
        if r[q] != (k, v) {
            let p = choose|p: int| 0 <= p < e.len() && r[q] == e[p];
            assert(height(e[p].1) <= b);
        }
    }
}

proof fn lemma_entries_height(
    t: Seq<TokenView>,
    i: int,
    indent: int,
    depth: int,
    acc: Seq<(Seq<char>, ValueView)>,
)
    requires
        1 <= depth <= MAX_DEPTH,
        entries_height(acc) <= MAX_DEPTH - depth,
    ensures
        mapping_entries(t, i, indent, depth, acc).1 matches Ok(v) ==> height(v) + depth
            <= MAX_DEPTH + 1,
    decreases t.len() - i, 0int,
{
    if !(cur(t, i) is Eof) && !(cur(t, i) matches TokenView::Indent(n) && n < indent) {
        let i1 = if cur(t, i) is Indent {
            i + 1
        } else {
            i
        };
        if let TokenView::Scalar(key) = cur(t, i1) {
            if cur(t, i1 + 1) is Colon {
                lemma_skip_newlines(t, i1 + 2);
                let i3 = skip_newlines(t, i1 + 2);
                lemma_skip_newlines(t, i3);
                let j = skip_newlines(t, i3);
                if cur(t, i3) is Newline || cur(t, i3) is Eof {
                    lemma_value_height(t, j, current_indent(t, j), depth);
                } else {
                    lemma_value_height(t, i3, indent, depth);
                }
                let (i4, r) = if cur(t, i3) is Newline || cur(t, i3) is Eof {
                    parse_value(t, j, current_indent(t, j), depth)
                } else {
                    parse_value(t, i3, indent, depth)
                };
                if let Ok(v) = r {
                    let i5 = skip_newlines(t, i4);
                    lemma_map_set_height(acc, key, v, MAX_DEPTH - depth);
                    if i < i5 <= t.len() {
                        lemma_entries_height(t, i5, indent, depth, map_set(acc, key, v));
                    }
                }
            }
        }
    }
}

proof fn lemma_documents_height(t: Seq<TokenView>, i: int, acc: Seq<ValueView>)
    requires
        forall|k: int| 0 <= k < acc.len() ==> height(#[trigger] acc[k]) <= MAX_DEPTH,
    ensures
        documents(t, i, acc) matches Ok(docs) ==> forall|k: int|
            0 <= k < docs.len() ==> height(#[trigger] docs[k]) <= MAX_DEPTH,
    decreases t.len() - i,
{
    let i1 = skip_newlines(t, i);
    if !(cur(t, i1) is Eof) {
        let i2 = if cur(t, i1) is DocStart {
            skip_newlines(t, i1 + 1)
        } else {
            i1
        };
        if !(cur(t, i2) is Eof) {
            lemma_value_height(t, i2, 0, 0);
            let (i3, r) = parse_value(t, i2, 0, 0);
            if let Ok(v) = r {
                let acc2 = acc.push(v);
                assert forall|k: int| 0 <= k < acc2.len() implies height(#[trigger] acc2[k])
                    <= MAX_DEPTH by {
                    if k < acc.len() {
                        assert(acc2[k] == acc[k]);
                    }
                }
                let i4 = skip_newlines(t, i3);
                let i5 = if cur(t, i4) is DocEnd {
                    i4 + 1
                } else {
                    i4
                };
                if i < i5 <= t.len() {
                    lemma_documents_height(t, i5, acc2);
                }
            }
        }
    }
}

/// Nothing that the parser returns nests more collections than the nesting limit,
/// so every parsed value can be written back by the emitter.
pub proof fn law_parsed_depth_within_limit(s: Seq<char>)
    ensures
        parse_outcome(s) matches Ok(v) ==> height(v) <= MAX_DEPTH && 2 * height(v) <= usize::MAX,
        parse_all_outcome(s) matches Ok(docs) ==> forall|k: int|
            0 <= k < docs.len() ==> height(#[trigger] docs[k]) <= MAX_DEPTH,
{
    let t = crate::parser::token_stream_of(s);
    lemma_value_height(t, skip_newlines(t, 0), 0, 0);
    lemma_documents_height(t, 0, Seq::empty());
}

/// A token that may follow a plain scalar: a colon, a newline, or the end.
pub open spec fn is_separator(t: TokenView) -> bool {
    t is Colon || t is Newline || t is Eof
}

/// In `t`, every plain scalar that another token follows is followed by a separator.
pub open spec fn scalars_separated(t: Seq<TokenView>) -> bool {
    forall|k: int| 0 <= k < t.len() - 1 && (#[trigger] t[k]) is Scalar ==> is_separator(t[k + 1])
}

proof fn lemma_scalar_end_stop(s: Seq<char>, p: int)
    requires
        0 <= p <= s.len(),
    ensures
        ({
            let e = scalar_end(s, p);
            e < s.len() ==> s[e] == '\n' || (s[e] == ':' && next_is_ws(s, e)) || (s[e] == '#'
                && prev_is_ws(s, e))
        }),
    decreases s.len() - p,
{
    if p < s.len() && !(s[p] == '\n' || (s[p] == ':' && next_is_ws(s, p)) || (s[p] == '#'
        && prev_is_ws(s, p))) {
        lemma_scalar_end_stop(s, p + 1);
    }
}

proof fn lemma_after_scalar(s: Seq<char>, e: int)
    requires
        0 <= e < s.len(),
        s[e] == '\n' || (s[e] == ':' && next_is_ws(s, e)) || (s[e] == '#' && prev_is_ws(s, e)),
    ensures
        next_token(s, e).1 matches Ok(t) && is_separator(t),
{
    reveal_strlit("---");
    reveal_strlit("...");
    if s[e] == '#' && prev_is_ws(s, e) {
        lemma_line_end_bounds(s, e);
    }
}

proof fn lemma_next_token_scalar(s: Seq<char>, p: int)
    requires
        0 <= p <= s.len(),
    ensures
        (next_token(s, p).1 matches Ok(t) && t is Scalar && next_token(s, p).0 < s.len())
            ==> (next_token(s, next_token(s, p).0).1 matches Ok(u) && is_separator(u)),
    decreases s.len() - p,
{
    lemma_skip_comment_bounds(s, p);
    let q = skip_comment(s, p);
    if q < s.len() {
        let c = s[q];
        lemma_single_quoted_kind(s, q + 1, Seq::empty());
        lemma_double_quoted_kind(s, q + 1, Seq::empty());
        if c == ' ' || c == '\t' {
            lemma_next_token_scalar(s, q + 1);
        }
        lemma_scalar_end_bounds(s, q);
        lemma_scalar_end_stop(s, q);
        let e = scalar_end(s, q);
        if e < s.len() {
            lemma_after_scalar(s, e);
        }
    }
}

proof fn lemma_stream_separated(s: Seq<char>, p: int, acc: Seq<TokenView>)
    requires
        0 <= p <= s.len(),
        scalars_separated(acc),
        (acc.len() > 0 && acc.last() is Scalar && p < s.len()) ==> (next_token(s, p).1 matches Ok(
            t,
        ) && is_separator(t)),
    ensures
        scalars_separated(stream_from(s, p, acc)),
    decreases s.len() - p,
{
    if p < s.len() {
        lemma_next_token_progress(s, p);
        let (q, r) = next_token(s, p);
        if let Ok(t) = r {
            let acc2 = acc.push(t);
            assert forall|k: int| 0 <= k < acc2.len() - 1 && (#[trigger] acc2[k]) is Scalar implies is_separator(
                acc2[k + 1],
            ) by {
                if k < acc.len() - 1 {
                    assert(acc2[k] == acc[k]);
                    assert(acc2[k + 1] == acc[k + 1]);
                }
            }
            lemma_next_token_scalar(s, p);
            lemma_stream_separated(s, q, acc2);
        }
    }
}

/// A plain scalar that the lexer reads is followed by a colon, a newline or the
/// end of the text, never by another token.
pub proof fn law_scalar_followed_by_separator(s: Seq<char>)
    ensures
        scalars_separated(crate::parser::token_stream_of(s)),
{
    lemma_stream_separated(s, 0, Seq::empty());
}

/// The messages that reading YAML can fail with: the nesting limit, a token
/// that holds no text where a value belongs, or a key without its colon.
pub open spec fn is_parse_message(m: Seq<char>) -> bool {
    ||| m == depth_message()
    ||| (exists|n: nat| m == #[trigger] unexpected_token_message(TokenView::Indent(n)))
    ||| m == unexpected_token_message(TokenView::Colon)
    ||| m == unexpected_token_message(TokenView::Newline)
    ||| m == unexpected_token_message(TokenView::DocEnd)
    ||| m == expected_message(TokenView::Colon, TokenView::Newline)
    ||| m == expected_message(TokenView::Colon, TokenView::Eof)
}

proof fn lemma_value_message(t: Seq<TokenView>, i: int, indent: int, depth: int)
    requires
        scalars_separated(t),
    ensures
        parse_value(t, i, indent, depth).1 matches Err(m) ==> is_parse_message(m),
    decreases t.len() - i, 2int,
{
    match cur(t, i) {
        TokenView::Dash => lemma_sequence_message(t, i, indent, depth),
        TokenView::Scalar(s) => {
            if peek_colon_at(t, i) {
                lemma_mapping_message(t, i, indent, depth);
            }
        },
        TokenView::DocStart => {
            lemma_skip_newlines(t, i + 1);
            lemma_value_message(t, skip_newlines(t, i + 1), indent, depth);
        },
        TokenView::Indent(n) => {
            assert(unexpected_token_message(TokenView::Indent(n)) == unexpected_token_message(
                TokenView::Indent(n),
            ));
        },
        _ => {},
    }
}

proof fn lemma_sequence_message(t: Seq<TokenView>, i: int, indent: int, depth: int)
    requires
        scalars_separated(t),
    ensures
        parse_sequence(t, i, indent, depth).1 matches Err(m) ==> is_parse_message(m),
    decreases t.len() - i, 1int,
{
    if depth + 1 <= MAX_DEPTH {
        lemma_items_message(t, i, indent, depth + 1, Seq::empty());
    }
}

proof fn lemma_items_message(
    t: Seq<TokenView>,
    i: int,
    indent: int,
    depth: int,
    acc: Seq<ValueView>,
)
    requires
        scalars_separated(t),
    ensures
        sequence_items(t, i, indent, depth, acc).1 matches Err(m) ==> is_parse_message(m),
    decreases t.len() - i, 0int,
{
    if cur(t, i) is Dash {
        lemma_skip_newlines(t, i + 1);
        let j = skip_newlines(t, i + 1);
        lemma_value_message(t, j, indent + 2, depth);
        let (k, r) = parse_value(t, j, indent + 2, depth);
        if let Ok(v) = r {
            let m = skip_newlines(t, k);
            if !(cur(t, m) matches TokenView::Indent(n) && n < indent) && i < m <= t.len() {
                lemma_items_message(t, m, indent, depth, acc.push(v));
            }
        }
    }
}

proof fn lemma_mapping_message(t: Seq<TokenView>, i: int, indent: int, depth: int)
    requires
        scalars_separated(t),
    ensures
        parse_mapping(t, i, indent, depth).1 matches Err(m) ==> is_parse_message(m),
    decreases t.len() - i, 1int,
{
    if depth + 1 <= MAX_DEPTH {
        lemma_entries_message(t, i, indent, depth + 1, Seq::empty());
    }
}

proof fn lemma_entries_message(
    t: Seq<TokenView>,
    i: int,
    indent: int,
    depth: int,
    acc: Seq<(Seq<char>, ValueView)>,
)
    requires
        scalars_separated(t),
    ensures
        mapping_entries(t, i, indent, depth, acc).1 matches Err(m) ==> is_parse_message(m),
    decreases t.len() - i, 0int,
{
    if !(cur(t, i) is Eof) && !(cur(t, i) matches TokenView::Indent(n) && n < indent) {
        let i1 = if cur(t, i) is Indent {
            i + 1
        } else {
            i
        };
        if let TokenView::Scalar(key) = cur(t, i1) {
            if cur(t, i1 + 1) is Colon {
                lemma_skip_newlines(t, i1 + 2);
                let i3 = skip_newlines(t, i1 + 2);
                lemma_skip_newlines(t, i3);
                let j = skip_newlines(t, i3);
                if cur(t, i3) is Newline || cur(t, i3) is Eof {
                    lemma_value_message(t, j, current_indent(t, j), depth);
                } else {
                    lemma_value_message(t, i3, indent, depth);
                }
                let (i4, r) = if cur(t, i3) is Newline || cur(t, i3) is Eof {
                    parse_value(t, j, current_indent(t, j), depth)
                } else {
                    parse_value(t, i3, indent, depth)
                };
                if let Ok(v) = r {
                    let i5 = skip_newlines(t, i4);
                    if i < i5 <= t.len() {
                        lemma_entries_message(t, i5, indent, depth, map_set(acc, key, v));
                    }
                }
            } else if i1 + 1 < t.len() {
                assert(t[i1] is Scalar);
                assert(is_separator(t[i1 + 1]));
            }
        }
    }
}

proof fn lemma_documents_message(t: Seq<TokenView>, i: int, acc: Seq<ValueView>)
    requires
        scalars_separated(t),
    ensures
        documents(t, i, acc) matches Err(m) ==> is_parse_message(m),
    decreases t.len() - i,
{
    let i1 = skip_newlines(t, i);
    if !(cur(t, i1) is Eof) {
        let i2 = if cur(t, i1) is DocStart {
            skip_newlines(t, i1 + 1)
        } else {
            i1
        };
        if !(cur(t, i2) is Eof) {
            lemma_value_message(t, i2, 0, 0);
            let (i3, r) = parse_value(t, i2, 0, 0);
            if let Ok(v) = r {
                let i4 = skip_newlines(t, i3);
                let i5 = if cur(t, i4) is DocEnd {
                    i4 + 1
                } else {
                    i4
                };
                if i < i5 <= t.len() {
                    lemma_documents_message(t, i5, acc.push(v));
                }
            }
        }
    }
}

/// Reading YAML fails only for the nesting limit, for a token that holds no
/// text where a value belongs, or for a key that no colon follows; a message
/// never shows a token that holds text.
pub proof fn law_parse_errors(s: Seq<char>)
    ensures
        parse_outcome(s) matches Err(e) ==> (e matches crate::error::YamlErrorView::ParseError(m)
            && is_parse_message(m)),
        parse_all_outcome(s) matches Err(e) ==> (e matches crate::error::YamlErrorView::ParseError(
            m,
        ) && is_parse_message(m)),
{
    let t = crate::parser::token_stream_of(s);
    law_scalar_followed_by_separator(s);
    lemma_value_message(t, skip_newlines(t, 0), 0, 0);
    lemma_documents_message(t, 0, Seq::empty());
}

/// The shape of a plain scalar: not empty, no white space at either end, no
/// newline, no colon before a space or a tab, no `#` after a space or a tab.
pub open spec fn scalar_shape(x: Seq<char>) -> bool {
    &&& x.len() >= 1
    &&& !is_unicode_ws(x[0])
    &&& !is_unicode_ws(x.last())
    &&& forall|i: int| 0 <= i < x.len() ==> #[trigger] x[i] != '\n'
    &&& forall|i: int|
        0 <= i < x.len() - 1 ==> !(#[trigger] x[i] == ':' && (x[i + 1] == ' ' || x[i + 1] == '\t'))
    &&& forall|i: int|
        0 <= i < x.len() - 1 ==> !((x[i] == ' ' || x[i] == '\t') && #[trigger] x[i + 1] == '#')
}

/// What a token read from `s` looks like: a plain scalar is a piece of `s` with
/// the shape of a plain scalar, an indentation is 1 to 64 spaces wide.
pub open spec fn token_shape(s: Seq<char>, t: TokenView) -> bool {
    match t {
        TokenView::Scalar(x) => scalar_shape(x) && exists|i: int, j: int|
            0 <= i <= j <= s.len() && x == s.subrange(i, j),
        TokenView::Indent(n) => 1 <= n <= 2 * MAX_DEPTH,
        _ => true,
    }
}

/// Whether line and column `a` come no later than `b`.
pub open spec fn lex_le(a: (int, int), b: (int, int)) -> bool {
    a.0 < b.0 || (a.0 == b.0 && a.1 <= b.1)
}

proof fn lemma_scalar_run(s: Seq<char>, q: int)
    requires
        0 <= q <= s.len(),
    ensures
        forall|i: int|
            q <= i < scalar_end(s, q) ==> #[trigger] s[i] != '\n' && (s[i] == ':' ==> !next_is_ws(s, i))
                && (s[i] == '#' ==> !prev_is_ws(s, i)),
    decreases s.len() - q,
{
    if q < s.len() && !(s[q] == '\n' || (s[q] == ':' && next_is_ws(s, q)) || (s[q] == '#'
        && prev_is_ws(s, q))) {
        lemma_scalar_run(s, q + 1);
    }
}

proof fn lemma_trim_start(s: Seq<char>, a: int, b: int)
    requires
        a <= b,
    ensures
        a <= trim_start_pos(s, a, b) <= b,
        trim_start_pos(s, a, b) < b ==> !is_unicode_ws(s[trim_start_pos(s, a, b)]),
    decreases b - a,
{
    if a < b && is_unicode_ws(s[a]) {
        lemma_trim_start(s, a + 1, b);
    }
}

proof fn lemma_trim_end(s: Seq<char>, a: int, b: int)
    requires
        a <= b,
    ensures
        a <= trim_end_pos(s, a, b) <= b,
        trim_end_pos(s, a, b) > a ==> !is_unicode_ws(s[trim_end_pos(s, a, b) - 1]),
    decreases b - a,
{
    if a < b && is_unicode_ws(s[b - 1]) {
        lemma_trim_end(s, a, b - 1);
    }
}

proof fn lemma_plain_scalar_shape(s: Seq<char>, q: int)
    requires
        0 <= q < s.len(),
    ensures
        plain_scalar(s, q).1 matches Ok(t) ==> t is Scalar && token_shape(s, t),
{
    lemma_scalar_end_bounds(s, q);
    lemma_scalar_run(s, q);
    let e = scalar_end(s, q);
    lemma_trim_start(s, q, e);
    lemma_trim_end(s, q, e);
    let ts = trim_start_pos(s, q, e);
    let te = trim_end_pos(s, q, e);
    if ts < te {
        let x = s.subrange(ts, te);
        assert(x[0] == s[ts]);
        assert(x.last() == s[te - 1]);
        assert forall|i: int| 0 <= i < x.len() implies #[trigger] x[i] != '\n' by {
            assert(x[i] == s[ts + i]);
        }
        assert forall|i: int| 0 <= i < x.len() - 1 implies !(#[trigger] x[i] == ':' && (x[i + 1]
            == ' ' || x[i + 1] == '\t')) by {
            assert(x[i] == s[ts + i]);
            assert(x[i + 1] == s[ts + i + 1]);
        }
        assert forall|i: int| 0 <= i < x.len() - 1 implies !((x[i] == ' ' || x[i] == '\t')
            && #[trigger] x[i + 1] == '#') by {
            assert(x[i] == s[ts + i]);
            assert(x[i + 1] == s[ts + i + 1]);
        }
    }
}

/// One step of the lexer from inside the text: it moves forward and stays within
/// the text; `Eof` comes only at the end; a newline token follows a newline; and
/// the token has the shape of `token_shape`.
pub proof fn law_next_token_step(s: Seq<char>, p: int)
    requires
        0 <= p <= s.len(),
    ensures
        p <= next_token(s, p).0 <= s.len(),
        p < s.len() ==> p < next_token(s, p).0,
        next_token(s, p).1 matches Ok(t) ==> token_shape(s, t),
        next_token(s, p).1 matches Ok(t) && t is Eof ==> next_token(s, p).0 == s.len(),
        next_token(s, p).1 matches Ok(t) && t is Newline ==> next_token(s, p).0 >= 1 && s[next_token(s, p).0 - 1] == '\n',
    decreases s.len() - p,
{
    lemma_next_token_progress(s, p);
    lemma_skip_comment_bounds(s, p);
    let q = skip_comment(s, p);
    if q < s.len() {
        let c = s[q];
        lemma_single_quoted_kind(s, q + 1, Seq::empty());
        lemma_double_quoted_kind(s, q + 1, Seq::empty());
        crate::lexer::model::lemma_spaces_end_bounds(s, q + 1);
        if c == ' ' || c == '\t' {
            law_next_token_step(s, q + 1);
        }
        lemma_plain_scalar_shape(s, q);
    }
}

proof fn lemma_line_col_mono(s: Seq<char>, p: int, q: int)
    requires
        0 <= p <= q,
    ensures
        lex_le(crate::lexer::model::line_col(s, p), crate::lexer::model::line_col(s, q)),
    decreases q - p,
{
    if p < q {
        lemma_line_col_mono(s, p, q - 1);
        crate::lexer::lemma_line_col_bounds(s, q - 1);
    }
}

/// What every spanned token from `s` satisfies.
pub open spec fn span_ok(s: Seq<char>, x: SpannedView) -> bool {
    &&& token_shape(s, x.token)
    &&& x.line >= 1
    &&& x.col >= 1
    &&& x.token is Newline ==> x.col == 1 && x.line >= 2
    &&& x.token is Eof ==> (x.line as int, x.col as int) == crate::lexer::model::line_col(s, s.len() as int)
}

/// Line and column never go back along `ts`.
pub open spec fn positions_sorted(ts: Seq<SpannedView>) -> bool {
    forall|i: int, j: int|
        0 <= i < j < ts.len() ==> lex_le(
            (#[trigger] ts[i].line as int, ts[i].col as int),
            (#[trigger] ts[j].line as int, ts[j].col as int),
        )
}

proof fn lemma_tokens_ok(s: Seq<char>, p: int, acc: Seq<SpannedView>)
    requires
        0 <= p <= s.len(),
        forall|i: int| 0 <= i < acc.len() ==> span_ok(s, #[trigger] acc[i]),
        positions_sorted(acc),
        forall|i: int|
            0 <= i < acc.len() ==> lex_le(
                (#[trigger] acc[i].line as int, acc[i].col as int),
                crate::lexer::model::line_col(s, p),
            ),
    ensures
        tokens_from(s, p, acc).1 matches Ok(ts) ==> {
            &&& forall|i: int| 0 <= i < ts.len() ==> span_ok(s, #[trigger] ts[i])
            &&& positions_sorted(ts)
            &&& ts.len() > acc.len()
            &&& ts.last() == crate::lexer::model::spanned(s, s.len() as int, TokenView::Eof)
        },
    decreases s.len() - p,
{
    if p < s.len() {
        law_next_token_step(s, p);
        let (q, r) = next_token(s, p);
        if let Ok(t) = r {
            let x = crate::lexer::model::spanned(s, q, t);
            crate::lexer::lemma_line_col_bounds(s, q);
            lemma_line_col_mono(s, p, q);
            if t is Newline {
                crate::lexer::lemma_line_col_bounds(s, q - 1);
            }
            let acc2 = acc.push(x);
            assert(span_ok(s, x));
            assert forall|i: int| 0 <= i < acc2.len() implies span_ok(s, #[trigger] acc2[i]) by {
                if i < acc.len() {
                    assert(acc2[i] == acc[i]);
                }
            }
            assert forall|i: int| 0 <= i < acc2.len() implies lex_le(
                (#[trigger] acc2[i].line as int, acc2[i].col as int),
                crate::lexer::model::line_col(s, q),
            ) by {
                if i < acc.len() {
                    assert(acc2[i] == acc[i]);
                }
            }
            assert forall|i: int, j: int| 0 <= i < j < acc2.len() implies lex_le(
                (#[trigger] acc2[i].line as int, acc2[i].col as int),
                (#[trigger] acc2[j].line as int, acc2[j].col as int),
            ) by {
                assert(acc2[i] == acc[i]);
                if j < acc.len() {
                    assert(acc2[j] == acc[j]);
                }
            }
            lemma_tokens_ok(s, q, acc2);
        }
    } else {
        crate::lexer::lemma_line_col_bounds(s, p);
        lemma_line_col_mono(s, p, s.len() as int);
        let x = crate::lexer::model::spanned(s, p, TokenView::Eof);
        let ts = acc.push(x);
        assert forall|i: int| 0 <= i < ts.len() implies span_ok(s, #[trigger] ts[i]) by {
            if i < acc.len() {
                assert(ts[i] == acc[i]);
            }
        }
        assert forall|i: int, j: int| 0 <= i < j < ts.len() implies lex_le(
            (#[trigger] ts[i].line as int, ts[i].col as int),
            (#[trigger] ts[j].line as int, ts[j].col as int),
        ) by {
            assert(ts[i] == acc[i]);
            if j < acc.len() {
                assert(ts[j] == acc[j]);
            }
        }
    }
}

/// The number of newlines in `t`.
pub open spec fn newline_count(t: Seq<char>) -> nat
    decreases t.len(),
{
    if t.len() == 0 {
        0
    } else {
        newline_count(t.drop_last()) + if t.last() == '\n' {
            1nat
        } else {
            0nat
        }
    }
}

/// How many characters follow the last newline of `t` (all of them if there is none).
pub open spec fn last_line_len(t: Seq<char>) -> nat
    decreases t.len(),
{
    if t.len() == 0 {
        0
    } else if t.last() == '\n' {
        0
    } else {
        last_line_len(t.drop_last()) + 1
    }
}

proof fn lemma_line_col_count(s: Seq<char>, p: int)
    requires
        0 <= p <= s.len(),
    ensures
        crate::lexer::model::line_col(s, p) == (
            1 + newline_count(s.take(p)) as int,
            1 + last_line_len(s.take(p)) as int,
        ),
    decreases p,
{
    if p > 0 {
        lemma_line_col_count(s, p - 1);
        assert(s.take(p).drop_last() =~= s.take(p - 1));
        assert(s.take(p).last() == s[p - 1]);
    }
}

/// Tokenizing, when it succeeds, gives tokens of the shapes that
/// `law_next_token_step` describes, with lines and columns from 1 that never go
/// back, newlines at column 1 of a later line, and the closing `Eof` (like any
/// `Eof`) at the end of the text: one line more than the text has newlines, and
/// one column more than its last line has characters.
pub proof fn law_tokens_shape(s: Seq<char>, p: int)
    requires
        0 <= p <= s.len(),
    ensures
        tokens_outcome(s, p) matches Ok(ts) ==> {
            &&& forall|i: int| 0 <= i < ts.len() ==> span_ok(s, #[trigger] ts[i])
            &&& positions_sorted(ts)
            &&& ts.len() > 0
            &&& ts.last().token is Eof
            &&& ts.last().line == 1 + newline_count(s)
            &&& ts.last().col == 1 + last_line_len(s)
        },
{
    lemma_tokens_ok(s, p, Seq::empty());
    lemma_line_col_count(s, s.len() as int);
    assert(s.take(s.len() as int) =~= s);
}


proof fn lemma_spaces_run(s: Seq<char>, p: int, k: int)
    requires
        0 <= p <= k < s.len(),
        forall|i: int| p <= i < k ==> #[trigger] s[i] == ' ',
        s[k] != ' ',
    ensures
        crate::lexer::model::spaces_end(s, p) == k,
    decreases k - p,
{
    if p < k {
        lemma_spaces_run(s, p + 1, k);
    }
}

/// `k` spaces, then a plain word on a line of its own: with no spaces the text
/// reads as the word and a newline; with 1 to 64 spaces an indentation of that
/// width comes first; with more, tokenizing fails for the nesting limit.
pub proof fn law_leading_spaces(k: nat, w: Seq<char>)
    requires
        plain_word(w),
    ensures
        k == 0 ==> (tokens_outcome(pad(k) + w.push('\n'), 0) matches Ok(ts) && span_tokens(ts)
            == seq![TokenView::Scalar(w), TokenView::Newline, TokenView::Eof]),
        1 <= k <= 2 * MAX_DEPTH ==> (tokens_outcome(pad(k) + w.push('\n'), 0) matches Ok(ts)
            && span_tokens(ts) == seq![
            TokenView::Indent(k),
            TokenView::Scalar(w),
            TokenView::Newline,
            TokenView::Eof,
        ]),
        k > 2 * MAX_DEPTH ==> tokens_outcome(pad(k) + w.push('\n'), 0) == Err::<
            Seq<SpannedView>,
            crate::error::YamlErrorView,
        >(crate::error::YamlErrorView::ParseError(depth_message())),
{
    let s = pad(k) + w.push('\n');
    let wl = w.len() as int;
    let n = s.len() as int;
    if k == 0 {
        assert(s =~= w.push('\n'));
        lemma_plain_line_tokens(w);
    } else {
        assert(s[k as int] == w[0]);
        assert forall|i: int| 0 <= i < k implies #[trigger] s[i] == ' ' by {}
        lemma_spaces_run(s, 0, k as int);
        assert(skip_comment(s, 0) == 0);
        assert(crate::lexer::model::col_at(s, 0) == 1);
        let r0 = if k > 2 * MAX_DEPTH {
            Err::<TokenView, Seq<char>>(depth_message())
        } else {
            Ok::<TokenView, Seq<char>>(TokenView::Indent(k))
        };
        assert(next_token(s, 0) == (k as int, r0));
        if k <= 2 * MAX_DEPTH {
            assert(s.subrange(k as int, k + wl) =~= w);
            assert(s[k + wl] == '\n');
            lemma_plain_word_token(s, k as int, w);
            assert(skip_comment(s, k + wl) == k + wl);
            assert(next_token(s, k + wl) == (n, Ok::<TokenView, Seq<char>>(TokenView::Newline)));
            let a = crate::lexer::model::spanned(s, k as int, TokenView::Indent(k));
            let b = crate::lexer::model::spanned(s, k + wl, TokenView::Scalar(w));
            let c = crate::lexer::model::spanned(s, n, TokenView::Newline);
            let e = crate::lexer::model::spanned(s, n, TokenView::Eof);
            let all = seq![a, b, c, e];
            assert(seq![a, b, c].push(e) =~= all);
            assert(tokens_from(s, n, seq![a, b, c]).1 == Ok::<Seq<SpannedView>, Seq<char>>(all));
            assert(seq![a, b].push(c) =~= seq![a, b, c]);
            assert(tokens_from(s, k + wl, seq![a, b]).1 == Ok::<Seq<SpannedView>, Seq<char>>(all));
            assert(seq![a].push(b) =~= seq![a, b]);
            assert(tokens_from(s, k as int, seq![a]).1 == Ok::<Seq<SpannedView>, Seq<char>>(all));
            assert(Seq::<SpannedView>::empty().push(a) =~= seq![a]);
            assert(tokens_from(s, 0, Seq::empty()).1 == Ok::<Seq<SpannedView>, Seq<char>>(all));
            assert(span_tokens(all) =~= seq![
                TokenView::Indent(k),
                TokenView::Scalar(w),
                TokenView::Newline,
                TokenView::Eof,
            ]);
        }
    }
}

proof fn lemma_read_double(t: Seq<char>, p: int, s: Seq<char>, acc: Seq<char>)
    requires
        0 <= p,
        p + s.len() < t.len(),
        t.subrange(p, p + s.len()) == s,
        t[p + s.len()] == '"',
        forall|i: int| 0 <= i < s.len() ==> #[trigger] s[i] != '"' && s[i] != '\\',
    ensures
        double_quoted(t, p, acc) == (
            p + s.len() + 1,
            Ok::<TokenView, Seq<char>>(TokenView::DoubleQuoted(acc + s)),
        ),
    decreases s.len(),
{
    if s.len() == 0 {
        assert(acc + s =~= acc);
    } else {
        let rest = s.drop_first();
        assert(t[p] == s[0]) by {
            assert(t.subrange(p, p + s.len())[0] == t[p]);
        }
        assert(t.subrange(p + 1, p + 1 + rest.len()) =~= rest) by {
            assert forall|i: int| 0 <= i < rest.len() implies t.subrange(p + 1, p + 1 + rest.len())[i]
                == rest[i] by {
                assert(t.subrange(p, p + s.len())[i + 1] == t[p + 1 + i]);
            }
        }
        assert forall|i: int| 0 <= i < rest.len() implies #[trigger] rest[i] != '"' && rest[i] != '\\' by {
            assert(rest[i] == s[i + 1]);
        }
        lemma_read_double(t, p + 1, rest, acc.push(s[0]));
        assert(acc.push(s[0]) + rest =~= acc + s);
    }
}

/// Text between double quotes that holds no double quote and no backslash is
/// read back as itself, and reading ends after the closing quote.
pub proof fn law_double_quoted_reads_back(s: Seq<char>)
    requires
        forall|i: int| 0 <= i < s.len() ==> #[trigger] s[i] != '"' && s[i] != '\\',
    ensures
        double_quoted(seq!['"'] + s + seq!['"'], 1, Seq::empty()) == (
            s.len() + 2int,
            Ok::<TokenView, Seq<char>>(TokenView::DoubleQuoted(s)),
        ),
        next_token(seq!['"'] + s + seq!['"'], 0) == (
            s.len() + 2int,
            Ok::<TokenView, Seq<char>>(TokenView::DoubleQuoted(s)),
        ),
{
    let t = seq!['"'] + s + seq!['"'];
    let n = s.len() as int;
    assert(t.subrange(1, 1 + n) =~= s);
    assert(t[1 + n] == '"');
    lemma_read_double(t, 1, s, Seq::empty());
    assert(Seq::<char>::empty() + s =~= s);
    assert(skip_comment(t, 0) == 0);
}

/// Any text between single quotes, with each quote in it doubled (as the
/// emitter writes it), is read back as that text, and reading ends after the
/// closing quote.
pub proof fn law_single_quoted_reads_back(s: Seq<char>)
    ensures
        single_quoted(seq!['\''] + double_quotes(s) + seq!['\''], 1, Seq::empty()) == (
            double_quotes(s).len() + 2int,
            Ok::<TokenView, Seq<char>>(TokenView::SingleQuoted(s)),
        ),
        next_token(seq!['\''] + double_quotes(s) + seq!['\''], 0) == (
            double_quotes(s).len() + 2int,
            Ok::<TokenView, Seq<char>>(TokenView::SingleQuoted(s)),
        ),
{
    let q = double_quotes(s);
    let l = q.len() as int;
    let t = seq!['\''] + q + seq!['\''];
    assert(t.subrange(1, 1 + l) =~= q);
    assert(t[1 + l] == '\'');
    assert(char_at(t, 2 + l) == '\0');
    lemma_read_quoted(t, 1, s, Seq::empty());
    assert(Seq::<char>::empty() + s =~= s);
    assert(skip_comment(t, 0) == 0);
}

/// A string on one line that the emitter writes, quoted or plain, is read back
/// as that string and a newline: single-quoted when it must be quoted, else as a
/// plain scalar, provided it is then not empty, has no white space at either
/// end and does not begin with a quote.
pub proof fn law_written_string_tokens(s: Seq<char>)
    requires
        !s.contains('\n'),
        needs_quoting(s) || (s.len() >= 1 && !is_unicode_ws(s[0]) && !is_unicode_ws(s.last())
            && s[0] != '\'' && s[0] != '"'),
    ensures
        tokens_outcome(string_text(s), 0) matches Ok(ts) && span_tokens(ts) == seq![
            if needs_quoting(s) {
                TokenView::SingleQuoted(s)
            } else {
                TokenView::Scalar(s)
            },
            TokenView::Newline,
            TokenView::Eof,
        ],
{
    reveal_strlit("'");
    reveal_strlit("'\n");
    reveal_strlit("\n");
    if needs_quoting(s) {
        let q = double_quotes(s);
        let l = q.len() as int;
        let t = seq!['\''] + q + seq!['\'', '\n'];
        assert(string_text(s) =~= t);
        assert(t.subrange(1, 1 + l) =~= q);
        assert(t[1 + l] == '\'');
        assert(t[2 + l] == '\n');
        lemma_read_quoted(t, 1, s, Seq::empty());
        assert(Seq::<char>::empty() + s =~= s);
        assert(skip_comment(t, 0) == 0);
        assert(skip_comment(t, 2 + l) == 2 + l);
        assert(next_token(t, 2 + l) == (3 + l, Ok::<TokenView, Seq<char>>(TokenView::Newline)));
        lemma_two_lines(t, 2 + l, TokenView::SingleQuoted(s), TokenView::Newline);
    } else {
        assert forall|i: int| 0 <= i < s.len() implies #[trigger] s[i] != '\n' && s[i] != ':'
            && s[i] != '#' by {
            if s[i] == ':' || s[i] == '#' {
                assert(crate::emitter::model::is_indicator(s[i]));
            }
        }
        assert(plain_word(s));
        assert(string_text(s) =~= s.push('\n'));
        lemma_plain_line_tokens(s);
    }
}

/// Text made only of white space.
pub open spec fn all_white(s: Seq<char>) -> bool {
    forall|i: int| 0 <= i < s.len() ==> is_unicode_ws(#[trigger] s[i])
}

/// A token that holds nothing to read: a newline, an indentation or the end.
pub open spec fn is_blank_token(t: TokenView) -> bool {
    t is Newline || t is Indent || t is Eof
}

proof fn lemma_white_trim(s: Seq<char>, a: int, b: int)
    requires
        0 <= a <= b <= s.len(),
        all_white(s),
    ensures
        trim_start_pos(s, a, b) == b,
    decreases b - a,
{
    if a < b {
        lemma_white_trim(s, a + 1, b);
    }
}

proof fn lemma_white_next_token(s: Seq<char>, p: int)
    requires
        0 <= p <= s.len(),
        all_white(s),
    ensures
        next_token(s, p).1 matches Ok(t) ==> is_blank_token(t),
    decreases s.len() - p,
{
    if p < s.len() {
        let c = s[p];
        assert(is_unicode_ws(c));
        assert(skip_comment(s, p) == p);
        if c == ' ' || c == '\t' {
            lemma_white_next_token(s, p + 1);
        }
        lemma_scalar_end_bounds(s, p);
        let e = scalar_end(s, p);
        lemma_white_trim(s, p, e);
        lemma_trim_end(s, p, e);
    }
}

proof fn lemma_white_stream(s: Seq<char>, p: int, acc: Seq<TokenView>)
    requires
        0 <= p <= s.len(),
        all_white(s),
        forall|i: int| 0 <= i < acc.len() ==> is_blank_token(#[trigger] acc[i]),
    ensures
        forall|i: int|
            0 <= i < stream_from(s, p, acc).len() ==> is_blank_token(
                #[trigger] stream_from(s, p, acc)[i],
            ),
    decreases s.len() - p,
{
    if p < s.len() {
        lemma_next_token_progress(s, p);
        lemma_white_next_token(s, p);
        let (q, r) = next_token(s, p);
        if let Ok(t) = r {
            let acc2 = acc.push(t);
            assert forall|i: int| 0 <= i < acc2.len() implies is_blank_token(#[trigger] acc2[i]) by {
                if i < acc.len() {
                    assert(acc2[i] == acc[i]);
                }
            }
            lemma_white_stream(s, q, acc2);
            assert(stream_from(s, p, acc) == stream_from(s, q, acc2));
        } else {
            assert(stream_from(s, p, acc) == acc);
        }
    }
}

/// Text that is all white space, the empty text included, reads as null, and
/// as no documents at all.
pub proof fn law_blank_text_is_null(s: Seq<char>)
    requires
        all_white(s),
    ensures
        parse_outcome(s) == Ok::<ValueView, crate::error::YamlErrorView>(ValueView::Null),
        parse_all_outcome(s) == Ok::<Seq<ValueView>, crate::error::YamlErrorView>(Seq::empty()),
{
    let t = crate::parser::token_stream_of(s);
    lemma_white_stream(s, 0, Seq::empty());
    lemma_skip_newlines(t, 0);
    let j = skip_newlines(t, 0);
    assert(cur(t, j) is Eof);
}

/// The views of spanned tokens, each as a successful lexing step.
pub open spec fn ok_steps(a: Seq<SpannedView>) -> Seq<Result<SpannedView, crate::error::YamlErrorView>> {
    a.map_values(|x: SpannedView| Ok::<SpannedView, crate::error::YamlErrorView>(x))
}

/// What reading one token at a time from `p` (`Lexer::next`) returns, after
/// `acc`, up to the end of the text or up to and including the first error.
pub open spec fn next_results(
    s: Seq<char>,
    p: int,
    acc: Seq<Result<SpannedView, crate::error::YamlErrorView>>,
) -> Seq<Result<SpannedView, crate::error::YamlErrorView>>
    decreases s.len() - p,
{
    if p < 0 || p >= s.len() {
        acc
    } else {
        proof {
            lemma_next_token_progress(s, p);
        }
        let st = next_token(s, p);
        let x = crate::lexer::step_outcome(s, st);
        match st.1 {
            Err(_) => acc.push(x),
            Ok(_) => next_results(s, st.0, acc.push(x)),
        }
    }
}

proof fn lemma_next_results(s: Seq<char>, p: int, acc: Seq<SpannedView>)
    requires
        0 <= p <= s.len(),
    ensures
        tokens_from(s, p, acc).1 matches Ok(ts) ==> ts.len() > 0 && next_results(s, p, ok_steps(acc))
            == ok_steps(ts.drop_last()),
        tokens_from(s, p, acc).1 matches Err(m) ==> {
            let r = next_results(s, p, ok_steps(acc));
            let st = stream_from(s, p, span_tokens(acc));
            &&& r.len() == st.len() + 1
            &&& r.last() == Err::<SpannedView, crate::error::YamlErrorView>(
                crate::error::YamlErrorView::ParseError(m),
            )
            &&& forall|i: int| 0 <= i < st.len() ==> ((#[trigger] r[i]) matches Ok(x) && x.token == st[i])
        },
    decreases s.len() - p,
{
    if p < s.len() {
        lemma_next_token_progress(s, p);
        let (q, r) = next_token(s, p);
        match r {
            Ok(t) => {
                let x = crate::lexer::model::spanned(s, q, t);
                assert(ok_steps(acc.push(x)) =~= ok_steps(acc).push(
                    Ok::<SpannedView, crate::error::YamlErrorView>(x),
                ));
                assert(span_tokens(acc.push(x)) =~= span_tokens(acc).push(t));
                lemma_next_results(s, q, acc.push(x));
            },
            Err(m) => {
                let rr = next_results(s, p, ok_steps(acc));
                assert(rr == ok_steps(acc).push(
                    Err::<SpannedView, crate::error::YamlErrorView>(
                        crate::error::YamlErrorView::ParseError(m),
                    ),
                ));
                assert(stream_from(s, p, span_tokens(acc)) == span_tokens(acc));
                assert forall|i: int| 0 <= i < acc.len() implies ((#[trigger] rr[i]) matches Ok(x)
                    && x.token == span_tokens(acc)[i]) by {
                    assert(rr[i] == ok_steps(acc)[i]);
                }
            },
        }
    } else {
        let ts = acc.push(crate::lexer::model::spanned(s, p, TokenView::Eof));
        assert(ts.drop_last() =~= acc);
    }
}

/// Reading one token at a time (`Lexer::next`) returns, in order, each token
/// that tokenizing lists but the closing `Eof`, and then nothing more; when
/// tokenizing fails, it returns the tokens read before the failure and then the
/// same error.
pub proof fn law_next_results(s: Seq<char>, p: int)
    requires
        0 <= p <= s.len(),
    ensures
        tokens_outcome(s, p) matches Ok(ts) ==> ts.len() > 0 && next_results(s, p, Seq::empty())
            == ok_steps(ts.drop_last()),
        tokens_outcome(s, p) matches Err(e) ==> {
            let r = next_results(s, p, Seq::empty());
            let st = stream_from(s, p, Seq::empty());
            &&& r.len() == st.len() + 1
            &&& r.last() == Err::<SpannedView, crate::error::YamlErrorView>(e)
            &&& forall|i: int| 0 <= i < st.len() ==> ((#[trigger] r[i]) matches Ok(x) && x.token == st[i])
        },
{
    lemma_next_results(s, p, Seq::empty());
    assert(ok_steps(Seq::<SpannedView>::empty()) =~= Seq::empty());
    assert(span_tokens(Seq::<SpannedView>::empty()) =~= Seq::<TokenView>::empty());
}


/// Null, a boolean or an integer: a value the emitter writes as one word.
pub open spec fn is_word_scalar(v: ValueView) -> bool {
    v is Null || v is Bool || v is Int
}

/// The word the emitter writes for null, a boolean or an integer.
pub open spec fn scalar_word(v: ValueView) -> Seq<char> {
    match v {
        ValueView::Null => "null"@,
        ValueView::Bool(b) => if b {
            "true"@
        } else {
            "false"@
        },
        ValueView::Int(n) => signed_decimal(n as int),
        _ => Seq::empty(),
    }
}

/// A value that the emitter writes on the rest of one line and that reads back
/// as itself there: null, a boolean, an integer, a string on one line that
/// must be quoted, or a plain word that reads as a string.
pub open spec fn is_line_value(v: ValueView) -> bool {
    match v {
        ValueView::Null => true,
        ValueView::Bool(_) => true,
        ValueView::Int(_) => true,
        ValueView::Str(s) => !s.contains('\n') && (needs_quoting(s) || (plain_word(s) && interpret(s)
            == ValueView::Str(s))),
        _ => false,
    }
}

/// What the emitter writes for a value that fits on one line, without the newline.
pub open spec fn value_word(v: ValueView) -> Seq<char> {
    match v {
        ValueView::Str(s) => if needs_quoting(s) {
            "'"@ + double_quotes(s) + "'"@
        } else {
            s
        },
        _ => scalar_word(v),
    }
}

/// The token that the lexer reads from `value_word(v)`.
pub open spec fn value_token(v: ValueView) -> TokenView {
    match v {
        ValueView::Str(s) => if needs_quoting(s) {
            TokenView::SingleQuoted(s)
        } else {
            TokenView::Scalar(s)
        },
        _ => TokenView::Scalar(scalar_word(v)),
    }
}

/// The line written for the entry `k: v` at `indent`.
pub open spec fn entry_line(k: Seq<char>, v: ValueView, indent: nat) -> Seq<char> {
    pad(indent) + k + ": "@ + value_word(v) + "\n"@
}

/// The lines of a mapping whose values fit on one line: one line per entry, in order.
pub open spec fn entry_lines(e: Seq<(Seq<char>, ValueView)>, indent: nat) -> Seq<char>
    decreases e.len(),
{
    if e.len() == 0 {
        Seq::empty()
    } else {
        entry_lines(e.drop_last(), indent) + entry_line(e.last().0, e.last().1, indent)
    }
}

proof fn lemma_scalar_word(v: ValueView)
    requires
        is_word_scalar(v),
    ensures
        plain_word(scalar_word(v)),
        interpret(scalar_word(v)) == v,
{
    reveal_strlit("null");
    reveal_strlit("true");
    reveal_strlit("false");
    reveal_strlit("~");
    reveal_strlit("yes");
    reveal_strlit("no");
    match v {
        ValueView::Int(n) => {
            lemma_signed_decimal_plain(n);
            law_decimal_reads_back(n);
        },
        _ => {},
    }
}

/// The first line of a text with no newline, not ending in a carriage return,
/// followed by a newline, is that text.
proof fn lemma_first_line_of_word(w: Seq<char>)
    requires
        forall|i: int| 0 <= i < w.len() ==> #[trigger] w[i] != '\n',
        w.len() > 0 ==> w.last() != '\r',
    ensures
        first_line(w + "\n"@) == w,
{
    reveal_strlit("\n");
    let s = w + "\n"@;
    assert(s =~= w.push('\n'));
    let n = w.len() as int;
    crate::emitter::model::lemma_first_newline(s);
    let k = crate::emitter::model::first_newline(s);
    assert(s[n] == '\n');
    if k < n {
        assert(s[k] == w[k]);
        assert(w[k] != '\n');
    }
    assert(k == n);
    assert(s.take(k) =~= w);
    assert(s.skip(k + 1) =~= Seq::<char>::empty());
    assert(crate::emitter::model::lines(Seq::<char>::empty()) =~= Seq::<Seq<char>>::empty());
    assert(crate::emitter::model::lines(s) == seq![w] + crate::emitter::model::lines(s.skip(k + 1)));
    assert(crate::emitter::model::lines(s) =~= seq![w]);
}

proof fn lemma_double_quotes_line(s: Seq<char>)
    requires
        !s.contains('\n'),
    ensures
        forall|i: int| 0 <= i < double_quotes(s).len() ==> #[trigger] double_quotes(s)[i] != '\n',
    decreases s.len(),
{
    if s.len() > 0 {
        let d = s.drop_last();
        assert(!d.contains('\n')) by {
            if d.contains('\n') {
                let j = choose|j: int| 0 <= j < d.len() && d[j] == '\n';
                assert(s[j] == '\n');
            }
        }
        lemma_double_quotes_line(d);
        assert(s[s.len() - 1] != '\n');
        let q = double_quotes(s);
        assert forall|i: int| 0 <= i < q.len() implies #[trigger] q[i] != '\n' by {
            if i < double_quotes(d).len() {
                assert(q[i] == double_quotes(d)[i]);
            }
        }
    }
}

/// A value that fits on one line is written as its word and a newline.
proof fn lemma_line_value(v: ValueView, indent: nat)
    requires
        is_line_value(v),
    ensures
        !is_collection(v),
        value_text(v, indent) == value_word(v) + "\n"@,
        first_line(value_text(v, indent)) == value_word(v),
        forall|i: int| 0 <= i < value_word(v).len() ==> #[trigger] value_word(v)[i] != '\n',
{
    reveal_strlit("null\n");
    reveal_strlit("true\n");
    reveal_strlit("false\n");
    reveal_strlit("null");
    reveal_strlit("true");
    reveal_strlit("false");
    reveal_strlit("\n");
    reveal_strlit("'");
    reveal_strlit("'\n");
    assert(is_unicode_ws('\r'));
    let w = value_word(v);
    match v {
        ValueView::Str(s) => {
            if needs_quoting(s) {
                lemma_double_quotes_line(s);
                let q = double_quotes(s);
                assert(w =~= seq!['\''] + q + seq!['\'']);
                assert(string_text(s) =~= w + "\n"@);
                assert forall|i: int| 0 <= i < w.len() implies #[trigger] w[i] != '\n' by {
                    if 0 < i < w.len() - 1 {
                        assert(w[i] == q[i - 1]);
                    }
                }
                assert(w.last() == '\'');
            } else {
                assert(string_text(s) =~= w + "\n"@);
                assert(w[w.len() - 1] != '\r');
            }
        },
        _ => {
            lemma_scalar_word(v);
            assert(value_text(v, indent) =~= w + "\n"@);
            assert(w[w.len() - 1] != '\r');
        },
    }
    lemma_first_line_of_word(w);
}

/// The text written for a mapping whose values fit on one line (null,
/// booleans, integers, and strings on one line that are quoted or read back as
/// plain words): one line per entry, in order, each the indentation, the key, a
/// colon, a space and what the emitter writes for the value (`null`, `true`,
/// `false`, the decimal integer, the quoted or the plain string).
pub proof fn law_line_mapping_text(e: Seq<(Seq<char>, ValueView)>, indent: nat)
    requires
        forall|i: int| 0 <= i < e.len() ==> is_line_value(#[trigger] e[i].1),
    ensures
        value_text(ValueView::Mapping(e), indent) == entry_lines(e, indent),
    decreases e.len(),
{
    reveal_strlit("null\n");
    reveal_strlit("true\n");
    reveal_strlit("false\n");
    reveal_strlit("null");
    reveal_strlit("true");
    reveal_strlit("false");
    reveal_strlit("\n");
    if e.len() > 0 {
        let d = e.drop_last();
        assert(e.subrange(0, e.len() - 1) =~= d);
        assert forall|i: int| 0 <= i < d.len() implies is_line_value(#[trigger] d[i].1) by {
            assert(d[i] == e[i]);
        }
        law_line_mapping_text(d, indent);
        let (k, x) = e.last();
        assert(is_line_value(e[e.len() - 1].1));
        lemma_line_value(x, indent);
    }
}

/// Two array-index keys with the same value are the same key.
proof fn lemma_digits_positive(a: Seq<char>)
    requires
        a.len() >= 1,
        all_digits(a),
        a[0] != '0',
    ensures
        digits_value(a) >= 1,
        a.len() >= 2 ==> digits_value(a) >= 10,
    decreases a.len(),
{
    assert(is_digit(a[a.len() - 1]));
    if a.len() == 1 {
        assert(a =~= Seq::<char>::empty().push(a[0]));
        crate::scalar::lemma_digits_value_push(Seq::<char>::empty(), a[0]);
        assert(digits_value(a) == a[0] as int - 48);
    } else {
        let d = a.drop_last();
        assert(d[0] == a[0]);
        assert(all_digits(d)) by {
            assert forall|i: int| 0 <= i < d.len() implies is_digit(#[trigger] d[i]) by {
                assert(d[i] == a[i]);
            }
        }
        lemma_digits_positive(d);
        assert(is_digit(a[a.len() - 1]));
    }
}

proof fn lemma_digits_injective(a: Seq<char>, b: Seq<char>)
    requires
        a.len() >= 1,
        b.len() >= 1,
        all_digits(a),
        all_digits(b),
        a[0] != '0',
        b[0] != '0',
        digits_value(a) == digits_value(b),
    ensures
        a == b,
    decreases a.len(),
{
    lemma_digits_positive(a);
    lemma_digits_positive(b);
    assert(is_digit(a[a.len() - 1]));
    assert(is_digit(b[b.len() - 1]));
    if a.len() == 1 {
        assert(a =~= Seq::<char>::empty().push(a[0]));
        crate::scalar::lemma_digits_value_push(Seq::<char>::empty(), a[0]);
        assert(digits_value(a) == a[0] as int - 48);
    }
    if b.len() == 1 {
        assert(b =~= Seq::<char>::empty().push(b[0]));
        crate::scalar::lemma_digits_value_push(Seq::<char>::empty(), b[0]);
        assert(digits_value(b) == b[0] as int - 48);
    }
    if a.len() == 1 && b.len() == 1 {
        assert(a[0] as int == b[0] as int);
        assert(a[0] == b[0]);
        assert(a =~= b);
    } else if a.len() >= 2 && b.len() >= 2 {
        let da = a.drop_last();
        let db = b.drop_last();
        assert(da[0] == a[0]);
        assert(db[0] == b[0]);
        assert(all_digits(da)) by {
            assert forall|i: int| 0 <= i < da.len() implies is_digit(#[trigger] da[i]) by {
                assert(da[i] == a[i]);
            }
        }
        assert(all_digits(db)) by {
            assert forall|i: int| 0 <= i < db.len() implies is_digit(#[trigger] db[i]) by {
                assert(db[i] == b[i]);
            }
        }
        assert(digits_value(a) == digits_value(da) * 10 + (a.last() as int - 48));
        assert(digits_value(b) == digits_value(db) * 10 + (b.last() as int - 48));
        assert(a.last() as int == b.last() as int);
        assert(a.last() == b.last());
        assert(digits_value(da) == digits_value(db));
        lemma_digits_injective(da, db);
        assert(a =~= da.push(a.last()));
        assert(b =~= db.push(b.last()));
    }
}

proof fn lemma_index_keys_injective(a: Seq<char>, b: Seq<char>)
    requires
        crate::ast::is_index_key(a),
        crate::ast::is_index_key(b),
        digits_value(a) == digits_value(b),
    ensures
        a == b,
{
    assert(is_digit(a[0]));
    assert(is_digit(b[0]));
    if a[0] == '0' {
        assert(a.len() == 1);
        assert(a =~= Seq::<char>::empty().push(a[0]));
        crate::scalar::lemma_digits_value_push(Seq::<char>::empty(), a[0]);
        assert(digits_value(a) == 0);
    }
    if b[0] == '0' {
        assert(b.len() == 1);
        assert(b =~= Seq::<char>::empty().push(b[0]));
        crate::scalar::lemma_digits_value_push(Seq::<char>::empty(), b[0]);
        assert(digits_value(b) == 0);
    }
    if a[0] == '0' && b[0] == '0' {
        assert(a =~= b);
    } else if a[0] == '0' {
        lemma_digits_positive(b);
    } else if b[0] == '0' {
        lemma_digits_positive(a);
    } else {
        lemma_digits_injective(a, b);
    }
}

/// Setting the next entry of a mapping in JavaScript key order, over the
/// entries before it, appends it.
proof fn lemma_map_set_appends(e: Seq<(Seq<char>, ValueView)>, i: int)
    requires
        keys_distinct(e),
        js_ordered(e),
        0 <= i < e.len(),
    ensures
        map_set(e.take(i), e[i].0, e[i].1) == e.take(i + 1),
{
    let p = e.take(i);
    let k = e[i].0;
    crate::ast::lemma_key_index(p, k);
    if crate::ast::key_index(p, k) >= 0 {
        let j = crate::ast::key_index(p, k);
        assert(p[j] == e[j]);
    }
    assert(p.push(e[i]) =~= e.take(i + 1));
    if crate::ast::is_index_key(k) {
        crate::ast::lemma_insert_pos(p, k);
        let q = crate::ast::insert_pos(p, k);
        if q < i {
            assert(p[q] == e[q]);
            assert(crate::ast::is_index_key(e[q].0));
            assert(digits_value(e[q].0) <= digits_value(k));
            if digits_value(e[q].0) == digits_value(k) {
                lemma_index_keys_injective(e[q].0, k);
            }
        }
        assert(q == i);
        assert(p.insert(i, e[i]) =~= p.push(e[i]));
    }
}

/// The four tokens of an entry line: key, colon, value, newline.
pub open spec fn entry_tokens(k: Seq<char>, x: TokenView) -> Seq<TokenView> {
    seq![TokenView::Scalar(k), TokenView::Colon, x, TokenView::Newline]
}

/// The word of a value that fits on one line, read where a newline follows it,
/// is its token.
proof fn lemma_line_value_token(s: Seq<char>, c: int, v: ValueView)
    requires
        is_line_value(v),
        0 <= c,
        c + value_word(v).len() < s.len(),
        s.subrange(c, c + value_word(v).len()) == value_word(v),
        s[c + value_word(v).len()] == '\n',
    ensures
        next_token(s, c) == (
            c + value_word(v).len(),
            Ok::<TokenView, Seq<char>>(value_token(v)),
        ),
{
    reveal_strlit("'");
    let w = value_word(v);
    let d = c + w.len();
    match v {
        ValueView::Str(x) => {
            if needs_quoting(x) {
                let q = double_quotes(x);
                let l = q.len() as int;
                assert(w =~= seq!['\''] + q + seq!['\'']);
                assert(s[c] == w[0]) by {
                    assert(s.subrange(c, d)[0] == s[c]);
                }
                assert(s.subrange(c + 1, c + 1 + l) =~= q) by {
                    assert forall|i: int| 0 <= i < l implies s.subrange(c + 1, c + 1 + l)[i] == q[i] by {
                        assert(s.subrange(c, d)[i + 1] == s[c + 1 + i]);
                        assert(w[i + 1] == q[i]);
                    }
                }
                assert(s[c + 1 + l] == '\'') by {
                    assert(s.subrange(c, d)[l + 1] == s[c + 1 + l]);
                }
                assert(char_at(s, c + 2 + l) == '\n');
                lemma_read_quoted(s, c + 1, x, Seq::empty());
                assert(Seq::<char>::empty() + x =~= x);
                assert(skip_comment(s, c) == c);
            } else {
                lemma_plain_word_token(s, c, x);
            }
        },
        _ => {
            lemma_scalar_word(v);
            lemma_plain_word_token(s, c, w);
        },
    }
}

/// An entry line `k: w` that starts at `a` is read as its four tokens.
proof fn lemma_entry_line_stream(s: Seq<char>, a: int, k: Seq<char>, v: ValueView, acc: Seq<TokenView>)
    requires
        plain_word(k),
        is_line_value(v),
        0 <= a,
        a + k.len() + value_word(v).len() + 3 <= s.len(),
        forall|x: int|
            0 <= x < k.len() + value_word(v).len() + 3 ==> #[trigger] s[a + x] == (k + seq![':', ' ']
                + value_word(v) + seq!['\n'])[x],
    ensures
        stream_from(s, a, acc) == stream_from(
            s,
            a + k.len() + value_word(v).len() + 3,
            acc + entry_tokens(k, value_token(v)),
        ),
{
    let w = value_word(v);
    reveal_strlit("---");
    reveal_strlit("...");
    let kl = k.len() as int;
    let wl = w.len() as int;
    let l = k + seq![':', ' '] + w + seq!['\n'];
    let b = a + kl;
    let c = b + 2;
    let d = c + wl;
    assert(s[a + kl] == l[kl]);
    assert(s[a + (kl + 1)] == l[kl + 1]);
    assert(s[a + (kl + 2 + wl)] == l[kl + 2 + wl]);
    assert(s[b] == ':');
    assert(s[b + 1] == ' ');
    assert(s[d] == '\n');
    assert(s.subrange(a, b) =~= k) by {
        assert forall|x: int| 0 <= x < kl implies s.subrange(a, b)[x] == k[x] by {
            assert(s[a + x] == l[x]);
        }
    }
    assert(s.subrange(c, d) =~= w) by {
        assert forall|x: int| 0 <= x < wl implies s.subrange(c, d)[x] == w[x] by {
            assert(s[a + (kl + 2 + x)] == l[kl + 2 + x]);
        }
    }
    lemma_plain_word_token(s, a, k);
    lemma_line_value_token(s, c, v);
    assert(skip_comment(s, b) == b);
    assert(next_token(s, b) == (b + 1, Ok::<TokenView, Seq<char>>(TokenView::Colon)));
    crate::lexer::lemma_line_col_bounds(s, b);
    assert(crate::lexer::model::col_at(s, b + 1) >= 2);
    assert(skip_comment(s, b + 1) == b + 1);
    assert(next_token(s, b + 1) == next_token(s, c));
    assert(skip_comment(s, d) == d);
    assert(next_token(s, d) == (d + 1, Ok::<TokenView, Seq<char>>(TokenView::Newline)));
    let a1 = acc.push(TokenView::Scalar(k));
    let a2 = a1.push(TokenView::Colon);
    let a3 = a2.push(value_token(v));
    let a4 = a3.push(TokenView::Newline);
    assert(stream_from(s, a, acc) == stream_from(s, b, a1));
    assert(stream_from(s, b, a1) == stream_from(s, b + 1, a2));
    assert(stream_from(s, b + 1, a2) == stream_from(s, d, a3));
    assert(stream_from(s, d, a3) == stream_from(s, d + 1, a4));
    assert(a4 =~= acc + entry_tokens(k, value_token(v)));
}

/// The tokens of the lines of a mapping whose values fit on one line.
pub open spec fn line_tokens(e: Seq<(Seq<char>, ValueView)>) -> Seq<TokenView>
    decreases e.len(),
{
    if e.len() == 0 {
        Seq::empty()
    } else {
        line_tokens(e.drop_last()) + entry_tokens(e.last().0, value_token(e.last().1))
    }
}

proof fn lemma_entry_lines_prefix(e: Seq<(Seq<char>, ValueView)>, j: int, n: nat)
    requires
        0 <= j <= e.len(),
    ensures
        entry_lines(e.take(j), n).len() <= entry_lines(e, n).len(),
        forall|y: int|
            0 <= y < entry_lines(e.take(j), n).len() ==> #[trigger] entry_lines(e, n)[y] == entry_lines(
                e.take(j),
                n,
            )[y],
    decreases e.len(),
{
    if j < e.len() {
        let d = e.drop_last();
        assert(d.take(j) =~= e.take(j));
        lemma_entry_lines_prefix(d, j, n);
    } else {
        assert(e.take(j) =~= e);
    }
}

proof fn lemma_line_stream(e: Seq<(Seq<char>, ValueView)>, i: int)
    requires
        0 <= i <= e.len(),
        forall|m: int| 0 <= m < e.len() ==> plain_word(#[trigger] e[m].0) && is_line_value(e[m].1),
    ensures
        stream_from(entry_lines(e, 0), entry_lines(e.take(i), 0).len() as int, line_tokens(e.take(i)))
            == line_tokens(e),
    decreases e.len() - i,
{
    reveal_strlit(": ");
    reveal_strlit("\n");
    let s = entry_lines(e, 0);
    if i == e.len() {
        assert(e.take(i) =~= e);
    } else {
        let (k, v) = e[i];
        let w = value_word(v);
        assert(plain_word(e[i].0));
        let a = entry_lines(e.take(i), 0);
        let b = entry_lines(e.take(i + 1), 0);
        assert(e.take(i + 1).drop_last() =~= e.take(i));
        assert(e.take(i + 1).last() == e[i]);
        let l = k + seq![':', ' '] + w + seq!['\n'];
        assert(entry_line(k, v, 0) =~= l);
        assert(b == a + l);
        lemma_entry_lines_prefix(e, i + 1, 0);
        assert forall|x: int| 0 <= x < k.len() + w.len() + 3 implies #[trigger] s[a.len() + x] == l[x] by {
            assert(s[a.len() + x] == b[a.len() + x]);
        }
        lemma_entry_line_stream(s, a.len() as int, k, v, line_tokens(e.take(i)));
        assert(line_tokens(e.take(i + 1)) == line_tokens(e.take(i)) + entry_tokens(k, value_token(v)));
        lemma_line_stream(e, i + 1);
    }
}

proof fn lemma_line_tokens_at(e: Seq<(Seq<char>, ValueView)>, i: int, j: int)
    requires
        0 <= i < e.len(),
        0 <= j < 4,
    ensures
        line_tokens(e).len() == 4 * e.len(),
        line_tokens(e)[4 * i + j] == entry_tokens(e[i].0, value_token(e[i].1))[j],
    decreases e.len(),
{
    let d = e.drop_last();
    assert(line_tokens(e) == line_tokens(d) + entry_tokens(e.last().0, value_token(e.last().1)));
    if d.len() == 0 {
        assert(line_tokens(d) =~= Seq::<TokenView>::empty());
    }
    if i < e.len() - 1 {
        lemma_line_tokens_at(d, i, j);
        assert(d[i] == e[i]);
    } else if d.len() > 0 {
        lemma_line_tokens_at(d, 0, 0);
    }
}

proof fn lemma_line_entries(e: Seq<(Seq<char>, ValueView)>, i: int)
    requires
        0 <= i <= e.len(),
        keys_distinct(e),
        js_ordered(e),
        forall|m: int| 0 <= m < e.len() ==> is_line_value(#[trigger] e[m].1),
    ensures
        mapping_entries(line_tokens(e), 4 * i, 0, 1, e.take(i)).1 == Ok::<ValueView, Seq<char>>(
            ValueView::Mapping(e),
        ),
    decreases e.len() - i,
{
    let t = line_tokens(e);
    if e.len() > 0 {
        lemma_line_tokens_at(e, 0, 0);
    }
    if i == e.len() {
        assert(e.take(i) =~= e);
        assert(cur(t, 4 * i) is Eof);
    } else {
        let (k, v) = e[i];
        let x = value_token(v);
        assert(is_line_value(e[i].1));
        if !(v is Str) {
            lemma_scalar_word(v);
        }
        lemma_line_tokens_at(e, i, 0);
        lemma_line_tokens_at(e, i, 1);
        lemma_line_tokens_at(e, i, 2);
        lemma_line_tokens_at(e, i, 3);
        let base = 4 * i;
        assert(t[base] == TokenView::Scalar(k));
        assert(t[base + 1] == TokenView::Colon);
        assert(t[base + 2] == x);
        assert(t[base + 3] == TokenView::Newline);
        if i + 1 < e.len() {
            lemma_line_tokens_at(e, i + 1, 0);
        }
        assert(skip_newlines(t, base + 2) == base + 2);
        assert(skip_newlines(t, base + 4) == base + 4);
        assert(skip_newlines(t, base + 3) == base + 4);
        assert(parse_value(t, base + 2, 0, 1) == (base + 3, Ok::<ValueView, Seq<char>>(v)));
        lemma_map_set_appends(e, i);
        lemma_line_entries(e, i + 1);
    }
}

/// A mapping whose keys are distinct plain words in JavaScript key order and
/// whose values fit on one line (null, booleans, integers, strings on one line
/// that are quoted or read back as plain words), written as YAML text, reads
/// back as itself.
pub proof fn law_line_mapping_round_trip(e: Seq<(Seq<char>, ValueView)>)
    requires
        e.len() >= 1,
        keys_distinct(e),
        js_ordered(e),
        forall|i: int| 0 <= i < e.len() ==> plain_word(#[trigger] e[i].0) && is_line_value(e[i].1),
    ensures
        parse_outcome(value_text(ValueView::Mapping(e), 0)) == Ok::<
            ValueView,
            crate::error::YamlErrorView,
        >(ValueView::Mapping(e)),
{
    assert forall|i: int| 0 <= i < e.len() implies is_line_value(#[trigger] e[i].1) by {
        assert(plain_word(e[i].0) && is_line_value(e[i].1));
    }
    law_line_mapping_text(e, 0);
    lemma_line_stream(e, 0);
    assert(e.take(0) =~= Seq::<(Seq<char>, ValueView)>::empty());
    assert(entry_lines(Seq::<(Seq<char>, ValueView)>::empty(), 0).len() == 0);
    let t = line_tokens(e);
    lemma_line_tokens_at(e, 0, 0);
    lemma_line_tokens_at(e, 0, 1);
    assert(skip_newlines(t, 0) == 0);
    lemma_line_entries(e, 0);
    let empty = Seq::<(Seq<char>, ValueView)>::empty();
    assert(line_tokens(empty) =~= Seq::<TokenView>::empty());
    assert(crate::parser::token_stream_of(value_text(ValueView::Mapping(e), 0)) == t);
    assert(mapping_entries(t, 0, 0, 1, empty).1 == Ok::<ValueView, Seq<char>>(ValueView::Mapping(e)));
    assert(t[0] == TokenView::Scalar(e[0].0));
    assert(t[1] == TokenView::Colon);
    assert(peek_colon_at(t, 0));
    assert(parse_mapping(t, 0, 0, 0) == mapping_entries(t, 0, 0, 1, empty));
    assert(parse_value(t, 0, 0, 0).1 == Ok::<ValueView, Seq<char>>(ValueView::Mapping(e)));
}


/// The line written for the item `v` of a sequence at `indent`.
pub open spec fn item_line(v: ValueView, indent: nat) -> Seq<char> {
    pad(indent) + "- "@ + value_word(v) + "\n"@
}

/// The lines of a sequence whose items fit on one line: one line per item, in order.
pub open spec fn item_lines(items: Seq<ValueView>, indent: nat) -> Seq<char>
    decreases items.len(),
{
    if items.len() == 0 {
        Seq::empty()
    } else {
        item_lines(items.drop_last(), indent) + item_line(items.last(), indent)
    }
}

/// The text written for a sequence whose items fit on one line (null,
/// booleans, integers, and strings on one line that are quoted or read back as
/// plain words): one line per item, in order, each the indentation, a dash, a
/// space and what the emitter writes for the item.
pub proof fn law_line_sequence_text(items: Seq<ValueView>, indent: nat)
    requires
        forall|i: int| 0 <= i < items.len() ==> is_line_value(#[trigger] items[i]),
    ensures
        value_text(ValueView::Sequence(items), indent) == item_lines(items, indent),
    decreases items.len(),
{
    if items.len() > 0 {
        let d = items.drop_last();
        assert(items.subrange(0, items.len() - 1) =~= d);
        assert forall|i: int| 0 <= i < d.len() implies is_line_value(#[trigger] d[i]) by {
            assert(d[i] == items[i]);
        }
        law_line_sequence_text(d, indent);
        assert(is_line_value(items[items.len() - 1]));
        lemma_line_value(items.last(), indent);
    }
}

/// The three tokens of an item line: dash, value, newline.
pub open spec fn item_tokens(x: TokenView) -> Seq<TokenView> {
    seq![TokenView::Dash, x, TokenView::Newline]
}

/// The tokens of the lines of a sequence whose items fit on one line.
pub open spec fn line_item_tokens(items: Seq<ValueView>) -> Seq<TokenView>
    decreases items.len(),
{
    if items.len() == 0 {
        Seq::empty()
    } else {
        line_item_tokens(items.drop_last()) + item_tokens(value_token(items.last()))
    }
}

/// An item line `- w` that starts at `a` is read as its three tokens.
proof fn lemma_item_line_stream(s: Seq<char>, a: int, v: ValueView, acc: Seq<TokenView>)
    requires
        is_line_value(v),
        0 <= a,
        a + value_word(v).len() + 3 <= s.len(),
        forall|x: int|
            0 <= x < value_word(v).len() + 3 ==> #[trigger] s[a + x] == (seq!['-', ' '] + value_word(
                v,
            ) + seq!['\n'])[x],
    ensures
        stream_from(s, a, acc) == stream_from(
            s,
            a + value_word(v).len() + 3,
            acc + item_tokens(value_token(v)),
        ),
{
    reveal_strlit("---");
    reveal_strlit("...");
    let w = value_word(v);
    let wl = w.len() as int;
    let l = seq!['-', ' '] + w + seq!['\n'];
    let c = a + 2;
    let d = c + wl;
    assert(s[a + 0] == l[0]);
    assert(s[a + 1] == l[1]);
    assert(s[a + (2 + wl)] == l[2 + wl]);
    assert(s[a] == '-');
    assert(s[a + 1] == ' ');
    assert(s[d] == '\n');
    assert(s.subrange(c, d) =~= w) by {
        assert forall|x: int| 0 <= x < wl implies s.subrange(c, d)[x] == w[x] by {
            assert(s[a + (2 + x)] == l[2 + x]);
        }
    }
    lemma_line_value_token(s, c, v);
    assert(skip_comment(s, a) == a);
    assert(s.subrange(a, a + 3)[1] == ' ');
    assert(!crate::lexer::model::starts_with(s, a, "---"@));
    assert(next_token(s, a) == (a + 1, Ok::<TokenView, Seq<char>>(TokenView::Dash)));
    crate::lexer::lemma_line_col_bounds(s, a);
    assert(crate::lexer::model::col_at(s, a + 1) >= 2);
    assert(skip_comment(s, a + 1) == a + 1);
    assert(next_token(s, a + 1) == next_token(s, c));
    assert(skip_comment(s, d) == d);
    assert(next_token(s, d) == (d + 1, Ok::<TokenView, Seq<char>>(TokenView::Newline)));
    let a1 = acc.push(TokenView::Dash);
    let a2 = a1.push(value_token(v));
    let a3 = a2.push(TokenView::Newline);
    assert(stream_from(s, a, acc) == stream_from(s, a + 1, a1));
    assert(stream_from(s, a + 1, a1) == stream_from(s, d, a2));
    assert(stream_from(s, d, a2) == stream_from(s, d + 1, a3));
    assert(a3 =~= acc + item_tokens(value_token(v)));
}

proof fn lemma_item_lines_prefix(items: Seq<ValueView>, j: int)
    requires
        0 <= j <= items.len(),
    ensures
        item_lines(items.take(j), 0).len() <= item_lines(items, 0).len(),
        forall|y: int|
            0 <= y < item_lines(items.take(j), 0).len() ==> #[trigger] item_lines(items, 0)[y]
                == item_lines(items.take(j), 0)[y],
    decreases items.len(),
{
    if j < items.len() {
        let d = items.drop_last();
        assert(d.take(j) =~= items.take(j));
        lemma_item_lines_prefix(d, j);
    } else {
        assert(items.take(j) =~= items);
    }
}

proof fn lemma_item_stream(items: Seq<ValueView>, i: int)
    requires
        0 <= i <= items.len(),
        forall|m: int| 0 <= m < items.len() ==> is_line_value(#[trigger] items[m]),
    ensures
        stream_from(
            item_lines(items, 0),
            item_lines(items.take(i), 0).len() as int,
            line_item_tokens(items.take(i)),
        ) == line_item_tokens(items),
    decreases items.len() - i,
{
    reveal_strlit("- ");
    reveal_strlit("\n");
    let s = item_lines(items, 0);
    if i == items.len() {
        assert(items.take(i) =~= items);
    } else {
        let v = items[i];
        let w = value_word(v);
        let a = item_lines(items.take(i), 0);
        let b = item_lines(items.take(i + 1), 0);
        assert(items.take(i + 1).drop_last() =~= items.take(i));
        assert(items.take(i + 1).last() == items[i]);
        let l = seq!['-', ' '] + w + seq!['\n'];
        assert(item_line(v, 0) =~= l);
        assert(b == a + l);
        lemma_item_lines_prefix(items, i + 1);
        assert forall|x: int| 0 <= x < w.len() + 3 implies #[trigger] s[a.len() + x] == l[x] by {
            assert(s[a.len() + x] == b[a.len() + x]);
        }
        lemma_item_line_stream(s, a.len() as int, v, line_item_tokens(items.take(i)));
        assert(line_item_tokens(items.take(i + 1)) == line_item_tokens(items.take(i)) + item_tokens(
            value_token(v),
        ));
        lemma_item_stream(items, i + 1);
    }
}

proof fn lemma_item_tokens_at(items: Seq<ValueView>, i: int, j: int)
    requires
        0 <= i < items.len(),
        0 <= j < 3,
    ensures
        line_item_tokens(items).len() == 3 * items.len(),
        line_item_tokens(items)[3 * i + j] == item_tokens(value_token(items[i]))[j],
    decreases items.len(),
{
    let d = items.drop_last();
    assert(line_item_tokens(items) == line_item_tokens(d) + item_tokens(value_token(items.last())));
    if d.len() == 0 {
        assert(line_item_tokens(d) =~= Seq::<TokenView>::empty());
    }
    if i < items.len() - 1 {
        lemma_item_tokens_at(d, i, j);
        assert(d[i] == items[i]);
    } else if d.len() > 0 {
        lemma_item_tokens_at(d, 0, 0);
    }
}

/// The value read from a value token that a newline follows.
proof fn lemma_read_line_value(t: Seq<TokenView>, j: int, v: ValueView, indent: int, depth: int)
    requires
        is_line_value(v),
        0 <= j,
        j + 1 < t.len(),
        t[j] == value_token(v),
        t[j + 1] == TokenView::Newline,
    ensures
        parse_value(t, j, indent, depth) == (j + 1, Ok::<ValueView, Seq<char>>(v)),
{
    if !(v is Str) {
        lemma_scalar_word(v);
    }
}

proof fn lemma_line_items(items: Seq<ValueView>, i: int)
    requires
        0 <= i <= items.len(),
        forall|m: int| 0 <= m < items.len() ==> is_line_value(#[trigger] items[m]),
    ensures
        sequence_items(line_item_tokens(items), 3 * i, 0, 1, items.take(i)).1 == Ok::<
            ValueView,
            Seq<char>,
        >(ValueView::Sequence(items)),
    decreases items.len() - i,
{
    let t = line_item_tokens(items);
    if items.len() > 0 {
        lemma_item_tokens_at(items, 0, 0);
    }
    if i == items.len() {
        assert(items.take(i) =~= items);
        assert(cur(t, 3 * i) is Eof);
    } else {
        let v = items[i];
        let x = value_token(v);
        lemma_item_tokens_at(items, i, 0);
        lemma_item_tokens_at(items, i, 1);
        lemma_item_tokens_at(items, i, 2);
        let base = 3 * i;
        assert(t[base] == TokenView::Dash);
        assert(t[base + 1] == x);
        assert(t[base + 2] == TokenView::Newline);
        if i + 1 < items.len() {
            lemma_item_tokens_at(items, i + 1, 0);
        }
        assert(skip_newlines(t, base + 1) == base + 1);
        assert(skip_newlines(t, base + 3) == base + 3);
        assert(skip_newlines(t, base + 2) == base + 3);
        lemma_read_line_value(t, base + 1, v, 2, 1);
        assert(items.take(i).push(v) =~= items.take(i + 1));
        lemma_line_items(items, i + 1);
    }
}

/// A sequence whose items fit on one line (null, booleans, integers, strings
/// on one line that are quoted or read back as plain words), written as YAML
/// text, reads back as itself.
pub proof fn law_line_sequence_round_trip(items: Seq<ValueView>)
    requires
        items.len() >= 1,
        forall|i: int| 0 <= i < items.len() ==> is_line_value(#[trigger] items[i]),
    ensures
        parse_outcome(value_text(ValueView::Sequence(items), 0)) == Ok::<
            ValueView,
            crate::error::YamlErrorView,
        >(ValueView::Sequence(items)),
{
    law_line_sequence_text(items, 0);
    lemma_item_stream(items, 0);
    let none = Seq::<ValueView>::empty();
    assert(items.take(0) =~= none);
    assert(item_lines(none, 0).len() == 0);
    assert(line_item_tokens(none) =~= Seq::<TokenView>::empty());
    let t = line_item_tokens(items);
    lemma_item_tokens_at(items, 0, 0);
    assert(t[0] == TokenView::Dash);
    assert(skip_newlines(t, 0) == 0);
    lemma_line_items(items, 0);
    assert(crate::parser::token_stream_of(value_text(ValueView::Sequence(items), 0)) == t);
    assert(sequence_items(t, 0, 0, 1, none).1 == Ok::<ValueView, Seq<char>>(ValueView::Sequence(items)));
    assert(parse_sequence(t, 0, 0, 0) == sequence_items(t, 0, 0, 1, none));
    assert(parse_value(t, 0, 0, 0).1 == Ok::<ValueView, Seq<char>>(ValueView::Sequence(items)));
}


/// A string on one line that is not empty, has no white space at either end,
/// does not begin with a quote and is not the text of a number, written as
/// YAML text, reads back as that string. In particular a word that reads as
/// null or a boolean (`null`, `~`, `true`, `yes`, `false`, `no`) is written so
/// that it reads back as the string, not as null or the boolean.
pub proof fn law_string_reads_back(s: Seq<char>)
    requires
        !s.contains('\n'),
        s.len() >= 1,
        !is_unicode_ws(s[0]),
        !is_unicode_ws(s.last()),
        s[0] != '\'' && s[0] != '"',
        !(interpret(s) is Int),
        !(interpret(s) is Float),
    ensures
        parse_outcome(value_text(ValueView::Str(s), 0)) == Ok::<ValueView, crate::error::YamlErrorView>(
            ValueView::Str(s),
        ),
{
    if needs_quoting(s) {
        law_quoted_string_round_trip(s);
    } else {
        reveal_strlit("null");
        reveal_strlit("~");
        reveal_strlit("true");
        reveal_strlit("yes");
        reveal_strlit("false");
        reveal_strlit("no");
        assert forall|i: int| 0 <= i < s.len() implies #[trigger] s[i] != '\n' && s[i] != ':'
            && s[i] != '#' by {
            if s[i] == ':' || s[i] == '#' {
                assert(crate::emitter::model::is_indicator(s[i]));
            }
        }
        assert(plain_word(s));
        assert(interpret(s) == ValueView::Str(s));
        law_plain_string_round_trip(s);
    }
}

proof fn lemma_escape_front(s: Seq<char>)
    requires
        s.len() > 0,
    ensures
        crate::parser::model::escape_text(s) == crate::parser::model::escape_char(s[0])
            + crate::parser::model::escape_text(s.drop_first()),
    decreases s.len(),
{
    if s.len() == 1 {
        assert(s.drop_last() =~= Seq::<char>::empty());
        assert(s.drop_first() =~= Seq::<char>::empty());
        assert(crate::parser::model::escape_text(s) =~= crate::parser::model::escape_char(s[0])
            + crate::parser::model::escape_text(s.drop_first()));
    } else {
        lemma_escape_front(s.drop_last());
        assert(s.drop_last().drop_first() =~= s.drop_first().drop_last());
        assert(s.drop_last()[0] == s[0]);
        assert(s.drop_first().last() == s.last());
        assert(crate::parser::model::escape_text(s) =~= crate::parser::model::escape_char(s[0])
            + crate::parser::model::escape_text(s.drop_first()));
    }
}

proof fn lemma_read_escaped(t: Seq<char>, p: int, s: Seq<char>, acc: Seq<char>)
    requires
        0 <= p,
        p + crate::parser::model::escape_text(s).len() < t.len(),
        t.subrange(p, p + crate::parser::model::escape_text(s).len())
            == crate::parser::model::escape_text(s),
        t[p + crate::parser::model::escape_text(s).len()] == '"',
    ensures
        double_quoted(t, p, acc) == (
            p + crate::parser::model::escape_text(s).len() + 1,
            Ok::<TokenView, Seq<char>>(TokenView::DoubleQuoted(acc + s)),
        ),
    decreases s.len(),
{
    let e = crate::parser::model::escape_text(s);
    let l = e.len() as int;
    if s.len() == 0 {
        assert(acc + s =~= acc);
    } else {
        lemma_escape_front(s);
        let c = s[0];
        let rest = s.drop_first();
        let piece = crate::parser::model::escape_char(c);
        let er = crate::parser::model::escape_text(rest);
        let n = piece.len() as int;
        assert(e == piece + er);
        assert(t[p] == e[0]) by {
            assert(t.subrange(p, p + l)[0] == t[p]);
        }
        if n == 2 {
            assert(t[p + 1] == e[1]) by {
                assert(t.subrange(p, p + l)[1] == t[p + 1]);
            }
            assert(t[p] == '\\');
            assert(unescape(char_at(t, p + 1)) == Some(c));
        } else {
            assert(piece == seq![c]);
            assert(c != '"' && c != '\\');
        }
        assert(t.subrange(p + n, p + n + er.len()) =~= er) by {
            assert forall|i: int| 0 <= i < er.len() implies t.subrange(p + n, p + n + er.len())[i]
                == er[i] by {
                assert(t.subrange(p, p + l)[i + n] == t[p + n + i]);
                assert(e[i + n] == er[i]);
            }
        }
        lemma_read_escaped(t, p + n, rest, acc.push(c));
        assert(acc.push(c) + rest =~= acc + s);
    }
}

/// Any string between double quotes, with each double quote, backslash,
/// newline, carriage return, tab and NUL in it written as its backslash escape,
/// is read back as that string, and reading ends after the closing quote.
pub proof fn law_double_quoted_escapes_read_back(s: Seq<char>)
    ensures
        next_token(seq!['"'] + crate::parser::model::escape_text(s) + seq!['"'], 0) == (
            crate::parser::model::escape_text(s).len() + 2int,
            Ok::<TokenView, Seq<char>>(TokenView::DoubleQuoted(s)),
        ),
{
    let e = crate::parser::model::escape_text(s);
    let n = e.len() as int;
    let t = seq!['"'] + e + seq!['"'];
    assert(t.subrange(1, 1 + n) =~= e);
    assert(t[1 + n] == '"');
    lemma_read_escaped(t, 1, s, Seq::empty());
    assert(Seq::<char>::empty() + s =~= s);
    assert(skip_comment(t, 0) == 0);
}

proof fn lemma_exp_index_at(b: Seq<char>, k: int)
    requires
        0 <= k <= b.len(),
        forall|i: int| 0 <= i < k ==> !crate::scalar::is_exp_char(#[trigger] b[i]),
        k < b.len() ==> crate::scalar::is_exp_char(b[k]),
    ensures
        crate::scalar::exp_index(b) == k,
    decreases k,
{
    if k > 0 {
        assert forall|i: int| 0 <= i < k - 1 implies !crate::scalar::is_exp_char(
            #[trigger] b.drop_first()[i],
        ) by {
            assert(b.drop_first()[i] == b[i + 1]);
        }
        if k - 1 < b.drop_first().len() {
            assert(b.drop_first()[k - 1] == b[k]);
        }
        lemma_exp_index_at(b.drop_first(), k - 1);
        assert(!crate::scalar::is_exp_char(b[0]));
    }
}

/// A sign or nothing.
pub open spec fn sign_or_empty(sg: Seq<char>) -> bool {
    sg == Seq::<char>::empty() || sg == seq!['+'] || sg == seq!['-']
}

/// Decimal digits with a point (digits on at least one side of it), after an
/// optional sign and followed by an optional exponent (`e` or `E`, an optional
/// sign, one or more digits), read as a floating-point number, as
/// `f64::from_str` accepts them.
pub proof fn law_point_number_is_float(
    sg: Seq<char>,
    a: Seq<char>,
    b: Seq<char>,
    x: char,
    es: Seq<char>,
    c: Seq<char>,
)
    requires
        sign_or_empty(sg),
        all_digits(a),
        all_digits(b),
        a.len() + b.len() >= 1,
        x == 'e' || x == 'E',
        sign_or_empty(es),
        all_digits(c),
    ensures
        c.len() >= 1 ==> interpret(sg + a + seq!['.'] + b + seq![x] + es + c) == ValueView::Float(
            sg + a + seq!['.'] + b + seq![x] + es + c,
        ),
        interpret(sg + a + seq!['.'] + b) == ValueView::Float(sg + a + seq!['.'] + b),
{
    let m = a + seq!['.'] + b;
    let ex = seq![x] + es + c;
    lemma_point_mantissa(a, b);
    assert(m.contains('.')) by {
        assert(m[a.len() as int] == '.');
    }
    if c.len() >= 1 {
        lemma_exponent(x, es, c);
        lemma_number_text(sg + a + seq!['.'] + b + seq![x] + es + c, sg, m, ex);
    }
    lemma_number_text(sg + a + seq!['.'] + b, sg, m, Seq::empty());
}

proof fn lemma_exponent(x: char, es: Seq<char>, c: Seq<char>)
    requires
        x == 'e' || x == 'E',
        sign_or_empty(es),
        all_digits(c),
        c.len() >= 1,
    ensures
        crate::scalar::is_exponent(seq![x] + es + c),
{
    let ex = seq![x] + es + c;
    assert(ex[0] == x);
    assert(ex.drop_first() =~= es + c);
    assert(is_digit(c[0]));
    if es.len() == 0 {
        assert(es + c =~= c);
    } else {
        assert((es + c).drop_first() =~= c);
    }
    assert(crate::scalar::strip_sign(es + c) == c);
}

proof fn lemma_point_mantissa(a: Seq<char>, b: Seq<char>)
    requires
        all_digits(a),
        all_digits(b),
        a.len() + b.len() >= 1,
    ensures
        crate::scalar::is_mantissa(a + seq!['.'] + b),
        (a + seq!['.'] + b)[a.len() as int] == '.',
        forall|i: int| 0 <= i < (a + seq!['.'] + b).len() ==> !crate::scalar::is_exp_char(
            #[trigger] (a + seq!['.'] + b)[i],
        ),
        is_digit((a + seq!['.'] + b)[0]) || (a + seq!['.'] + b)[0] == '.',
{
    let m = a + seq!['.'] + b;
    let n = a.len() as int;
    assert forall|i: int| 0 <= i < m.len() implies is_digit(#[trigger] m[i]) || m[i] == '.' by {
        if i < n {
            assert(m[i] == a[i]);
        } else if i > n {
            assert(m[i] == b[i - n - 1]);
        }
    }
    assert forall|i: int, j: int| 0 <= i < j < m.len() implies !(#[trigger] m[i] == '.'
        && #[trigger] m[j] == '.') by {
        if i < n {
            assert(m[i] == a[i]);
        } else if i > n {
            assert(m[i] == b[i - n - 1]);
        }
        if j < n {
            assert(m[j] == a[j]);
        } else if j > n {
            assert(m[j] == b[j - n - 1]);
        }
    }
    if a.len() > 0 {
        assert(m[0] == a[0]);
        assert(is_digit(m[0]));
    } else {
        assert(m[1] == b[0]);
        assert(is_digit(m[1]));
    }
    assert forall|i: int| 0 <= i < m.len() implies !crate::scalar::is_exp_char(#[trigger] m[i]) by {
        if i < n {
            assert(m[i] == a[i]);
        } else if i > n {
            assert(m[i] == b[i - n - 1]);
        }
    }
}

/// A sign or nothing, a mantissa that holds a point, and an exponent or
/// nothing, read as a floating-point number.
proof fn lemma_number_text(s: Seq<char>, sg: Seq<char>, m: Seq<char>, ex: Seq<char>)
    requires
        s =~= sg + m + ex,
        sign_or_empty(sg),
        crate::scalar::is_mantissa(m),
        m.contains('.') || ex.len() > 0,
        is_digit(m[0]) || m[0] == '.',
        forall|i: int| 0 <= i < m.len() ==> !crate::scalar::is_exp_char(#[trigger] m[i]),
        crate::scalar::is_exponent(ex),
    ensures
        interpret(s) == ValueView::Float(s),
{
    reveal_strlit("null");
    reveal_strlit("~");
    reveal_strlit("true");
    reveal_strlit("yes");
    reveal_strlit("false");
    reveal_strlit("no");
    let r = m + ex;
    assert(s =~= sg + r);
    assert(r[0] == m[0]);
    assert(crate::scalar::strip_sign(s) == r) by {
        if sg.len() == 0 {
            assert(s =~= r);
        } else {
            assert(s.drop_first() =~= r);
        }
    }
    lemma_exp_index_at(r, m.len() as int);
    assert(r.take(m.len() as int) =~= m);
    assert(r.skip(m.len() as int) =~= ex);
    if m.contains('.') {
        let k = choose|k: int| 0 <= k < m.len() && m[k] == '.';
        assert(r[k] == '.');
    } else {
        assert(r[m.len() as int] == ex[0]);
        assert(!is_digit(r[m.len() as int]));
    }
    assert(!all_digits(r));
    assert(parse_int(s) is None);
    if sg.len() == 0 {
        assert(s[0] == m[0]);
    } else {
        assert(s[0] == sg[0]);
    }
    assert(s != "null"@ && s != "~"@ && s != "true"@ && s != "yes"@ && s != "false"@ && s != "no"@);
}


/// The tokens of one entry line at `n` columns: the indentation (when there is
/// one), the key, a colon, the value and a newline.
pub open spec fn indented_entry_tokens(k: Seq<char>, x: TokenView, n: nat) -> Seq<TokenView> {
    if n == 0 {
        entry_tokens(k, x)
    } else {
        seq![TokenView::Indent(n)] + entry_tokens(k, x)
    }
}

/// The tokens of the lines of a mapping at `n` columns whose values fit on one line.
pub open spec fn indented_line_tokens(e: Seq<(Seq<char>, ValueView)>, n: nat) -> Seq<TokenView>
    decreases e.len(),
{
    if e.len() == 0 {
        Seq::empty()
    } else {
        indented_line_tokens(e.drop_last(), n) + indented_entry_tokens(
            e.last().0,
            value_token(e.last().1),
            n,
        )
    }
}

/// An entry line at `n` columns that starts a line at `a` is read as its tokens.
proof fn lemma_indented_entry_line_stream(
    s: Seq<char>,
    a: int,
    k: Seq<char>,
    v: ValueView,
    n: nat,
    acc: Seq<TokenView>,
)
    requires
        plain_word(k),
        is_line_value(v),
        0 <= a,
        n <= 2 * MAX_DEPTH,
        n > 0 ==> (a == 0 || s[a - 1] == '\n'),
        a + entry_line(k, v, n).len() <= s.len(),
        forall|x: int| 0 <= x < entry_line(k, v, n).len() ==> #[trigger] s[a + x] == entry_line(k, v, n)[x],
    ensures
        stream_from(s, a, acc) == stream_from(
            s,
            a + entry_line(k, v, n).len(),
            acc + indented_entry_tokens(k, value_token(v), n),
        ),
{
    reveal_strlit(": ");
    reveal_strlit("\n");
    reveal_strlit("---");
    reveal_strlit("...");
    let w = value_word(v);
    let l = k + seq![':', ' '] + w + seq!['\n'];
    let line = entry_line(k, v, n);
    assert(line =~= pad(n) + l);
    let b = a + n;
    assert forall|x: int| 0 <= x < k.len() + w.len() + 3 implies #[trigger] s[b + x] == (k + seq![
        ':',
        ' ',
    ] + w + seq!['\n'])[x] by {
        assert(s[a + (n + x)] == line[n + x]);
    }
    if n == 0 {
        lemma_entry_line_stream(s, a, k, v, acc);
    } else {
        assert forall|i: int| a <= i < b implies #[trigger] s[i] == ' ' by {
            assert(s[a + (i - a)] == line[i - a]);
        }
        assert(s[b + 0] == k[0]);
        assert(is_unicode_ws(' '));
        lemma_spaces_run(s, a, b);
        if a > 0 {
            assert(char_at(s, a - 1) == '\n');
        }
        assert(crate::lexer::model::col_at(s, a) == 1);
        assert(s[a] == ' ');
        assert(skip_comment(s, a) == a);
        assert(next_token(s, a) == (b, Ok::<TokenView, Seq<char>>(TokenView::Indent(n))));
        let acc1 = acc.push(TokenView::Indent(n));
        assert(stream_from(s, a, acc) == stream_from(s, b, acc1));
        lemma_entry_line_stream(s, b, k, v, acc1);
        assert(acc1 + entry_tokens(k, value_token(v)) =~= acc + indented_entry_tokens(
            k,
            value_token(v),
            n,
        ));
    }
}

/// The lines of a mapping at `n` columns, from the start of a line at `a`, are
/// read as their tokens.
proof fn lemma_indented_lines_stream(
    s: Seq<char>,
    a: int,
    e: Seq<(Seq<char>, ValueView)>,
    n: nat,
    j: int,
    acc: Seq<TokenView>,
)
    requires
        0 <= a,
        n <= 2 * MAX_DEPTH,
        n > 0 ==> (a == 0 || s[a - 1] == '\n'),
        forall|m: int| 0 <= m < e.len() ==> plain_word(#[trigger] e[m].0) && is_line_value(e[m].1),
        a + entry_lines(e, n).len() <= s.len(),
        forall|x: int| 0 <= x < entry_lines(e, n).len() ==> #[trigger] s[a + x] == entry_lines(e, n)[x],
        0 <= j <= e.len(),
    ensures
        stream_from(
            s,
            a + entry_lines(e.take(j), n).len(),
            acc + indented_line_tokens(e.take(j), n),
        ) == stream_from(s, a + entry_lines(e, n).len(), acc + indented_line_tokens(e, n)),
    decreases e.len() - j,
{
    reveal_strlit("\n");
    if j == e.len() {
        assert(e.take(j) =~= e);
    } else {
        let (k, v) = e[j];
        assert(plain_word(e[j].0) && is_line_value(e[j].1));
        let p = entry_lines(e.take(j), n);
        let q = entry_lines(e.take(j + 1), n);
        let line = entry_line(k, v, n);
        assert(e.take(j + 1).drop_last() =~= e.take(j));
        assert(e.take(j + 1).last() == e[j]);
        assert(q == p + line);
        lemma_entry_lines_prefix(e, j + 1, n);
        let full = entry_lines(e, n);
        assert forall|x: int| 0 <= x < line.len() implies #[trigger] s[a + p.len() + x] == line[x] by {
            assert(s[a + (p.len() + x)] == full[p.len() + x]);
            assert(full[p.len() + x] == q[p.len() + x]);
        }
        if n > 0 && j > 0 {
            let pj = e.take(j);
            let pl = entry_line(pj.last().0, pj.last().1, n);
            assert(p == entry_lines(pj.drop_last(), n) + pl);
            assert(pl.last() == '\n');
            assert(p[p.len() - 1] == '\n');
            assert(s[a + (p.len() - 1)] == full[p.len() - 1]);
            assert(full[p.len() - 1] == q[p.len() - 1]);
        }
        if j == 0 {
            assert(e.take(0) =~= Seq::<(Seq<char>, ValueView)>::empty());
            assert(p.len() == 0);
        }
        lemma_indented_entry_line_stream(s, a + p.len(), k, v, n, acc + indented_line_tokens(e.take(j), n));
        assert(indented_line_tokens(e.take(j + 1), n) == indented_line_tokens(e.take(j), n)
            + indented_entry_tokens(k, value_token(v), n));
        assert(acc + indented_line_tokens(e.take(j), n) + indented_entry_tokens(k, value_token(v), n)
            =~= acc + indented_line_tokens(e.take(j + 1), n));
        assert(a + p.len() + line.len() == a + q.len());
        lemma_indented_lines_stream(s, a, e, n, j + 1, acc);
    }
}


proof fn lemma_indented_tokens_at(e: Seq<(Seq<char>, ValueView)>, n: nat, i: int, j: int)
    requires
        n > 0,
        0 <= i < e.len(),
        0 <= j < 5,
    ensures
        indented_line_tokens(e, n).len() == 5 * e.len(),
        indented_line_tokens(e, n)[5 * i + j] == indented_entry_tokens(
            e[i].0,
            value_token(e[i].1),
            n,
        )[j],
    decreases e.len(),
{
    let d = e.drop_last();
    assert(indented_line_tokens(e, n) == indented_line_tokens(d, n) + indented_entry_tokens(
        e.last().0,
        value_token(e.last().1),
        n,
    ));
    if d.len() == 0 {
        assert(indented_line_tokens(d, n) =~= Seq::<TokenView>::empty());
    }
    if i < e.len() - 1 {
        lemma_indented_tokens_at(d, n, i, j);
        assert(d[i] == e[i]);
    } else if d.len() > 0 {
        lemma_indented_tokens_at(d, n, 0, 0);
    }
}

proof fn lemma_indented_tokens_flat(e: Seq<(Seq<char>, ValueView)>)
    ensures
        indented_line_tokens(e, 0) == line_tokens(e),
    decreases e.len(),
{
    if e.len() > 0 {
        lemma_indented_tokens_flat(e.drop_last());
    }
}

/// The entries of a mapping at the first column, whose tokens stand at `p` in
/// `t` before a `---` or the end, are read as that mapping.
proof fn lemma_flat_mapping_at(
    t: Seq<TokenView>,
    p: int,
    e: Seq<(Seq<char>, ValueView)>,
    i: int,
    depth: int,
)
    requires
        0 <= p,
        0 <= i <= e.len(),
        keys_distinct(e),
        js_ordered(e),
        forall|m: int| 0 <= m < e.len() ==> is_line_value(#[trigger] e[m].1),
        p + 4 * e.len() <= t.len(),
        forall|x: int| 0 <= x < 4 * e.len() ==> #[trigger] t[p + x] == line_tokens(e)[x],
        p + 4 * e.len() == t.len() || t[p + 4 * e.len()] is DocStart,
    ensures
        mapping_entries(t, p + 4 * i, 0, depth, e.take(i)) == (
            p + 4 * e.len(),
            Ok::<ValueView, Seq<char>>(ValueView::Mapping(e)),
        ),
    decreases e.len() - i,
{
    let lt = line_tokens(e);
    if i == e.len() {
        assert(e.take(i) =~= e);
    } else {
        let (k, v) = e[i];
        let x = value_token(v);
        assert(is_line_value(e[i].1));
        lemma_line_tokens_at(e, i, 0);
        lemma_line_tokens_at(e, i, 1);
        lemma_line_tokens_at(e, i, 2);
        lemma_line_tokens_at(e, i, 3);
        let base = p + 4 * i;
        assert(t[p + (4 * i + 0)] == lt[4 * i + 0]);
        assert(t[p + (4 * i + 1)] == lt[4 * i + 1]);
        assert(t[p + (4 * i + 2)] == lt[4 * i + 2]);
        assert(t[p + (4 * i + 3)] == lt[4 * i + 3]);
        assert(t[base] == TokenView::Scalar(k));
        assert(t[base + 1] == TokenView::Colon);
        assert(t[base + 2] == x);
        assert(t[base + 3] == TokenView::Newline);
        if i + 1 < e.len() {
            lemma_line_tokens_at(e, i + 1, 0);
            assert(t[p + (4 * (i + 1) + 0)] == lt[4 * (i + 1) + 0]);
            assert(t[base + 4] is Scalar);
        }
        assert(skip_newlines(t, base + 2) == base + 2);
        assert(skip_newlines(t, base + 4) == base + 4);
        assert(skip_newlines(t, base + 3) == base + 4);
        lemma_read_line_value(t, base + 2, v, 0, depth);
        lemma_map_set_appends(e, i);
        lemma_flat_mapping_at(t, p, e, i + 1, depth);
        assert(p + 4 * (i + 1) == base + 4);
    }
}

/// The entries of a mapping at `n` columns, whose tokens stand at `p` in `t`
/// before a dash or the end, are read from the first key as that mapping.
proof fn lemma_indented_mapping_at(
    t: Seq<TokenView>,
    p: int,
    e: Seq<(Seq<char>, ValueView)>,
    n: nat,
    i: int,
    depth: int,
)
    requires
        n > 0,
        0 <= p,
        0 <= i < e.len(),
        keys_distinct(e),
        js_ordered(e),
        forall|m: int| 0 <= m < e.len() ==> is_line_value(#[trigger] e[m].1),
        p + 5 * e.len() <= t.len(),
        forall|x: int| 0 <= x < 5 * e.len() ==> #[trigger] t[p + x] == indented_line_tokens(e, n)[x],
        p + 5 * e.len() == t.len() || t[p + 5 * e.len()] is Dash,
    ensures
        mapping_entries(t, p + 5 * i + 1, n as int, depth, e.take(i)) == (
            p + 5 * e.len(),
            Ok::<ValueView, Seq<char>>(ValueView::Mapping(e)),
        ),
    decreases e.len() - i,
{
    let lt = indented_line_tokens(e, n);
    let (k, v) = e[i];
    let x = value_token(v);
    assert(is_line_value(e[i].1));
    lemma_indented_tokens_at(e, n, i, 1);
    lemma_indented_tokens_at(e, n, i, 2);
    lemma_indented_tokens_at(e, n, i, 3);
    lemma_indented_tokens_at(e, n, i, 4);
    let key = p + 5 * i + 1;
    assert(t[p + (5 * i + 1)] == lt[5 * i + 1]);
    assert(t[p + (5 * i + 2)] == lt[5 * i + 2]);
    assert(t[p + (5 * i + 3)] == lt[5 * i + 3]);
    assert(t[p + (5 * i + 4)] == lt[5 * i + 4]);
    assert(t[key] == TokenView::Scalar(k));
    assert(t[key + 1] == TokenView::Colon);
    assert(t[key + 2] == x);
    assert(t[key + 3] == TokenView::Newline);
    assert(skip_newlines(t, key + 2) == key + 2);
    lemma_read_line_value(t, key + 2, v, n as int, depth);
    lemma_map_set_appends(e, i);
    if i + 1 < e.len() {
        lemma_indented_tokens_at(e, n, i + 1, 0);
        lemma_indented_tokens_at(e, n, i + 1, 1);
        assert(t[p + (5 * (i + 1) + 0)] == lt[5 * (i + 1) + 0]);
        assert(t[p + (5 * (i + 1) + 1)] == lt[5 * (i + 1) + 1]);
        assert(t[key + 4] == TokenView::Indent(n));
        assert(t[key + 5] is Scalar);
        assert(skip_newlines(t, key + 5) == key + 5);
        assert(skip_newlines(t, key + 4) == key + 5);
        assert(skip_newlines(t, key + 3) == key + 5);
        lemma_indented_mapping_at(t, p, e, n, i + 1, depth);
        assert(p + 5 * (i + 1) + 1 == key + 5);
    } else {
        assert(key + 4 == p + 5 * e.len());
        assert(skip_newlines(t, key + 4) == key + 4);
        assert(skip_newlines(t, key + 3) == key + 4);
        assert(e.take(i + 1) =~= e);
        assert(mapping_entries(t, key + 4, n as int, depth, e) == (
            p + 5 * e.len(),
            Ok::<ValueView, Seq<char>>(ValueView::Mapping(e)),
        ));
    }
}

/// The entries of a mapping.
pub open spec fn mapping_entries_of(v: ValueView) -> Seq<(Seq<char>, ValueView)> {
    match v {
        ValueView::Mapping(e) => e,
        _ => Seq::empty(),
    }
}

/// A mapping that is not empty, whose keys are distinct plain words in
/// JavaScript key order and whose values fit on one line.
pub open spec fn is_line_mapping(v: ValueView) -> bool {
    let e = mapping_entries_of(v);
    &&& v is Mapping
    &&& e.len() >= 1
    &&& keys_distinct(e)
    &&& js_ordered(e)
    &&& forall|i: int| 0 <= i < e.len() ==> plain_word(#[trigger] e[i].0) && is_line_value(e[i].1)
}


/// The text of a sequence of mappings as the emitter writes it at the first
/// column: for each item a dash on its own line, then the item's entry lines
/// two columns deeper.
pub open spec fn mapping_items_text(items: Seq<ValueView>) -> Seq<char>
    decreases items.len(),
{
    if items.len() == 0 {
        Seq::empty()
    } else {
        mapping_items_text(items.drop_last()) + "-\n"@ + entry_lines(
            mapping_entries_of(items.last()),
            2,
        )
    }
}

/// The tokens of one item of a sequence of mappings: dash, newline, the entries.
pub open spec fn mapping_item_tokens(v: ValueView) -> Seq<TokenView> {
    seq![TokenView::Dash, TokenView::Newline] + indented_line_tokens(mapping_entries_of(v), 2)
}

pub open spec fn mapping_items_tokens(items: Seq<ValueView>) -> Seq<TokenView>
    decreases items.len(),
{
    if items.len() == 0 {
        Seq::empty()
    } else {
        mapping_items_tokens(items.drop_last()) + mapping_item_tokens(items.last())
    }
}

proof fn lemma_mapping_items_text(items: Seq<ValueView>)
    requires
        forall|i: int| 0 <= i < items.len() ==> is_line_mapping(#[trigger] items[i]),
    ensures
        value_text(ValueView::Sequence(items), 0) == mapping_items_text(items),
    decreases items.len(),
{
    reveal_strlit("-\n");
    if items.len() > 0 {
        let d = items.drop_last();
        assert(items.subrange(0, items.len() - 1) =~= d);
        assert forall|i: int| 0 <= i < d.len() implies is_line_mapping(#[trigger] d[i]) by {
            assert(d[i] == items[i]);
        }
        lemma_mapping_items_text(d);
        let x = items.last();
        assert(is_line_mapping(items[items.len() - 1]));
        let e = mapping_entries_of(x);
        assert(x == ValueView::Mapping(e));
        assert forall|i: int| 0 <= i < e.len() implies is_line_value(#[trigger] e[i].1) by {
            assert(plain_word(e[i].0) && is_line_value(e[i].1));
        }
        law_line_mapping_text(e, 2);
        assert(pad(0) + "-\n"@ =~= "-\n"@);
    }
}

proof fn lemma_mapping_items_text_prefix(items: Seq<ValueView>, j: int)
    requires
        0 <= j <= items.len(),
    ensures
        mapping_items_text(items.take(j)).len() <= mapping_items_text(items).len(),
        forall|y: int|
            0 <= y < mapping_items_text(items.take(j)).len() ==> #[trigger] mapping_items_text(
                items,
            )[y] == mapping_items_text(items.take(j))[y],
    decreases items.len(),
{
    if j < items.len() {
        let d = items.drop_last();
        assert(d.take(j) =~= items.take(j));
        lemma_mapping_items_text_prefix(d, j);
    } else {
        assert(items.take(j) =~= items);
    }
}

proof fn lemma_mapping_items_tokens_prefix(items: Seq<ValueView>, j: int)
    requires
        0 <= j <= items.len(),
    ensures
        mapping_items_tokens(items.take(j)).len() <= mapping_items_tokens(items).len(),
        forall|y: int|
            0 <= y < mapping_items_tokens(items.take(j)).len() ==> #[trigger] mapping_items_tokens(
                items,
            )[y] == mapping_items_tokens(items.take(j))[y],
    decreases items.len(),
{
    if j < items.len() {
        let d = items.drop_last();
        assert(d.take(j) =~= items.take(j));
        lemma_mapping_items_tokens_prefix(d, j);
    } else {
        assert(items.take(j) =~= items);
    }
}

proof fn lemma_mapping_items_stream(items: Seq<ValueView>, i: int)
    requires
        0 <= i <= items.len(),
        forall|m: int| 0 <= m < items.len() ==> is_line_mapping(#[trigger] items[m]),
    ensures
        stream_from(
            mapping_items_text(items),
            mapping_items_text(items.take(i)).len() as int,
            mapping_items_tokens(items.take(i)),
        ) == mapping_items_tokens(items),
    decreases items.len() - i,
{
    reveal_strlit("-\n");
    reveal_strlit("---");
    reveal_strlit("...");
    let s = mapping_items_text(items);
    if i == items.len() {
        assert(items.take(i) =~= items);
    } else {
        let v = items[i];
        assert(is_line_mapping(items[i]));
        let e = mapping_entries_of(v);
        let el = entry_lines(e, 2);
        let a = mapping_items_text(items.take(i)).len() as int;
        let prev = mapping_items_text(items.take(i));
        let next = mapping_items_text(items.take(i + 1));
        assert(items.take(i + 1).drop_last() =~= items.take(i));
        assert(items.take(i + 1).last() == items[i]);
        assert(next == prev + "-\n"@ + el);
        lemma_mapping_items_text_prefix(items, i + 1);
        assert(s[a + 0] == next[a]);
        assert(s[a + 1] == next[a + 1]);
        assert(s[a] == '-');
        assert(s[a + 1] == '\n');
        assert forall|x: int| 0 <= x < el.len() implies #[trigger] s[a + 2 + x] == el[x] by {
            assert(s[a + 2 + x] == next[a + 2 + x]);
        }
        assert(skip_comment(s, a) == a);
        if a + 3 <= s.len() {
            assert(s.subrange(a, a + 3)[1] == '\n');
        }
        assert(!crate::lexer::model::starts_with(s, a, "---"@));
        assert(next_token(s, a) == (a + 1, Ok::<TokenView, Seq<char>>(TokenView::Dash)));
        assert(skip_comment(s, a + 1) == a + 1);
        assert(next_token(s, a + 1) == (a + 2, Ok::<TokenView, Seq<char>>(TokenView::Newline)));
        let acc = mapping_items_tokens(items.take(i));
        let acc2 = acc.push(TokenView::Dash).push(TokenView::Newline);
        assert(a + 1 < s.len());
        assert(stream_from(s, a, acc) == stream_from(s, a + 1, acc.push(TokenView::Dash)));
        assert(stream_from(s, a + 1, acc.push(TokenView::Dash)) == stream_from(s, a + 2, acc2));
        assert forall|m: int| 0 <= m < e.len() implies plain_word(#[trigger] e[m].0)
            && is_line_value(e[m].1) by {}
        lemma_indented_lines_stream(s, a + 2, e, 2, 0, acc2);
        assert(e.take(0) =~= Seq::<(Seq<char>, ValueView)>::empty());
        assert(entry_lines(e.take(0), 2).len() == 0);
        assert(indented_line_tokens(e.take(0), 2) =~= Seq::<TokenView>::empty());
        assert(acc2 + Seq::<TokenView>::empty() =~= acc2);
        assert(acc2 + indented_line_tokens(e, 2) =~= mapping_items_tokens(items.take(i + 1)));
        assert(a + 2 + el.len() == next.len());
        lemma_mapping_items_stream(items, i + 1);
    }
}

proof fn lemma_mapping_items_parse(items: Seq<ValueView>, i: int)
    requires
        0 <= i <= items.len(),
        forall|m: int| 0 <= m < items.len() ==> is_line_mapping(#[trigger] items[m]),
    ensures
        sequence_items(
            mapping_items_tokens(items),
            mapping_items_tokens(items.take(i)).len() as int,
            0,
            1,
            items.take(i),
        ).1 == Ok::<ValueView, Seq<char>>(ValueView::Sequence(items)),
    decreases items.len() - i,
{
    let t = mapping_items_tokens(items);
    lemma_mapping_items_tokens_prefix(items, i);
    let q = mapping_items_tokens(items.take(i)).len() as int;
    if i == items.len() {
        assert(items.take(i) =~= items);
        assert(cur(t, q) is Eof);
    } else {
        let v = items[i];
        assert(is_line_mapping(items[i]));
        let e = mapping_entries_of(v);
        assert(v == ValueView::Mapping(e));
        let it = mapping_item_tokens(v);
        let lt = indented_line_tokens(e, 2);
        lemma_indented_tokens_at(e, 2, 0, 0);
        lemma_indented_tokens_at(e, 2, 0, 1);
        lemma_indented_tokens_at(e, 2, 0, 2);
        let nx = mapping_items_tokens(items.take(i + 1));
        assert(items.take(i + 1).drop_last() =~= items.take(i));
        assert(items.take(i + 1).last() == items[i]);
        assert(nx == mapping_items_tokens(items.take(i)) + it);
        lemma_mapping_items_tokens_prefix(items, i + 1);
        let end = q + 2 + 5 * e.len();
        assert(nx.len() == end);
        assert forall|x: int| 0 <= x < it.len() implies #[trigger] t[q + x] == it[x] by {
            assert(t[q + x] == nx[q + x]);
        }
        assert(t[q + 0] == it[0]);
        assert(t[q + 1] == it[1]);
        assert(t[q + 2] == it[2]);
        assert(t[q + 3] == it[3]);
        assert(t[q + 4] == it[4]);
        assert(t[q] == TokenView::Dash);
        assert(t[q + 1] == TokenView::Newline);
        assert(t[q + 2] == TokenView::Indent(2));
        assert(t[q + 3] is Scalar);
        assert(t[q + 4] == TokenView::Colon);
        assert forall|x: int| 0 <= x < 5 * e.len() implies #[trigger] t[(q + 2) + x] == lt[x] by {
            assert(t[q + (2 + x)] == it[2 + x]);
        }
        if i + 1 < items.len() {
            lemma_mapping_items_tokens_prefix(items, i + 2);
            let nn = mapping_items_tokens(items.take(i + 2));
            assert(items.take(i + 2).drop_last() =~= items.take(i + 1));
            assert(items.take(i + 2).last() == items[i + 1]);
            assert(nn == nx + mapping_item_tokens(items[i + 1]));
            assert(t[end] == nn[end]);
            assert(t[end] is Dash);
        }
        assert forall|m: int| 0 <= m < e.len() implies is_line_value(#[trigger] e[m].1) by {
            assert(plain_word(e[m].0) && is_line_value(e[m].1));
        }
        lemma_indented_mapping_at(t, q + 2, e, 2, 0, 2);
        assert(e.take(0) =~= Seq::<(Seq<char>, ValueView)>::empty());
        assert(skip_newlines(t, q + 3) == q + 3);
        assert(skip_newlines(t, q + 2) == q + 3);
        assert(skip_newlines(t, q + 1) == q + 3);
        assert(crate::parser::model::peek_colon(t, q + 3));
        assert(parse_mapping(t, q + 3, 2, 1) == mapping_entries(
            t,
            q + 3,
            2,
            2,
            Seq::<(Seq<char>, ValueView)>::empty(),
        ));
        assert(parse_value(t, q + 3, 2, 1) == (end, Ok::<ValueView, Seq<char>>(v)));
        assert(skip_newlines(t, end) == end);
        assert(items.take(i).push(v) =~= items.take(i + 1));
        lemma_mapping_items_parse(items, i + 1);
    }
}

/// A sequence of one or more mappings, each not empty, with distinct plain-word
/// keys in JavaScript key order and values that fit on one line, written as
/// YAML text, reads back as itself: every item that follows a dash is read,
/// whatever the item before it was.
pub proof fn law_mapping_sequence_round_trip(items: Seq<ValueView>)
    requires
        items.len() >= 1,
        forall|i: int| 0 <= i < items.len() ==> is_line_mapping(#[trigger] items[i]),
    ensures
        parse_outcome(value_text(ValueView::Sequence(items), 0)) == Ok::<
            ValueView,
            crate::error::YamlErrorView,
        >(ValueView::Sequence(items)),
{
    lemma_mapping_items_text(items);
    lemma_mapping_items_stream(items, 0);
    let none = Seq::<ValueView>::empty();
    assert(items.take(0) =~= none);
    assert(mapping_items_text(none).len() == 0);
    assert(mapping_items_tokens(none) =~= Seq::<TokenView>::empty());
    let t = mapping_items_tokens(items);
    assert(crate::parser::token_stream_of(value_text(ValueView::Sequence(items), 0)) == t);
    lemma_mapping_items_tokens_prefix(items, 1);
    assert(items.take(1).drop_last() =~= none);
    assert(mapping_items_tokens(items.take(1)) =~= mapping_item_tokens(items[0]));
    assert(t[0] == mapping_items_tokens(items.take(1))[0]);
    assert(t[0] == TokenView::Dash);
    assert(skip_newlines(t, 0) == 0);
    lemma_mapping_items_parse(items, 0);
    assert(parse_sequence(t, 0, 0, 0) == sequence_items(t, 0, 0, 1, none));
    assert(parse_value(t, 0, 0, 0).1 == Ok::<ValueView, Seq<char>>(ValueView::Sequence(items)));
}


/// Several documents as text: each opened by `---` on its own line and
/// followed by the text written for its value.
pub open spec fn documents_text(docs: Seq<ValueView>) -> Seq<char>
    decreases docs.len(),
{
    if docs.len() == 0 {
        Seq::empty()
    } else {
        documents_text(docs.drop_last()) + "---\n"@ + value_text(docs.last(), 0)
    }
}

/// The tokens of one document that holds a mapping: `---`, newline, the entries.
pub open spec fn document_tokens(v: ValueView) -> Seq<TokenView> {
    seq![TokenView::DocStart, TokenView::Newline] + line_tokens(mapping_entries_of(v))
}

pub open spec fn documents_tokens(docs: Seq<ValueView>) -> Seq<TokenView>
    decreases docs.len(),
{
    if docs.len() == 0 {
        Seq::empty()
    } else {
        documents_tokens(docs.drop_last()) + document_tokens(docs.last())
    }
}

proof fn lemma_documents_text_prefix(docs: Seq<ValueView>, j: int)
    requires
        0 <= j <= docs.len(),
    ensures
        documents_text(docs.take(j)).len() <= documents_text(docs).len(),
        forall|y: int|
            0 <= y < documents_text(docs.take(j)).len() ==> #[trigger] documents_text(docs)[y]
                == documents_text(docs.take(j))[y],
    decreases docs.len(),
{
    if j < docs.len() {
        let d = docs.drop_last();
        assert(d.take(j) =~= docs.take(j));
        lemma_documents_text_prefix(d, j);
    } else {
        assert(docs.take(j) =~= docs);
    }
}

proof fn lemma_documents_tokens_prefix(docs: Seq<ValueView>, j: int)
    requires
        0 <= j <= docs.len(),
    ensures
        documents_tokens(docs.take(j)).len() <= documents_tokens(docs).len(),
        forall|y: int|
            0 <= y < documents_tokens(docs.take(j)).len() ==> #[trigger] documents_tokens(docs)[y]
                == documents_tokens(docs.take(j))[y],
    decreases docs.len(),
{
    if j < docs.len() {
        let d = docs.drop_last();
        assert(d.take(j) =~= docs.take(j));
        lemma_documents_tokens_prefix(d, j);
    } else {
        assert(docs.take(j) =~= docs);
    }
}

proof fn lemma_documents_stream(docs: Seq<ValueView>, i: int)
    requires
        0 <= i <= docs.len(),
        forall|m: int| 0 <= m < docs.len() ==> is_line_mapping(#[trigger] docs[m]),
    ensures
        stream_from(
            documents_text(docs),
            documents_text(docs.take(i)).len() as int,
            documents_tokens(docs.take(i)),
        ) == documents_tokens(docs),
    decreases docs.len() - i,
{
    reveal_strlit("---\n");
    reveal_strlit("---");
    reveal_strlit("...");
    let s = documents_text(docs);
    if i == docs.len() {
        assert(docs.take(i) =~= docs);
    } else {
        let v = docs[i];
        assert(is_line_mapping(docs[i]));
        let e = mapping_entries_of(v);
        assert(v == ValueView::Mapping(e));
        assert forall|m: int| 0 <= m < e.len() implies is_line_value(#[trigger] e[m].1) by {
            assert(plain_word(e[m].0) && is_line_value(e[m].1));
        }
        law_line_mapping_text(e, 0);
        let el = entry_lines(e, 0);
        let a = documents_text(docs.take(i)).len() as int;
        let prev = documents_text(docs.take(i));
        let next = documents_text(docs.take(i + 1));
        assert(docs.take(i + 1).drop_last() =~= docs.take(i));
        assert(docs.take(i + 1).last() == docs[i]);
        assert(next == prev + "---\n"@ + el);
        lemma_documents_text_prefix(docs, i + 1);
        assert forall|x: int| 0 <= x < 4 implies #[trigger] s[a + x] == "---\n"@[x] by {
            assert(s[a + x] == next[a + x]);
        }
        assert forall|x: int| 0 <= x < el.len() implies #[trigger] s[a + 4 + x] == el[x] by {
            assert(s[a + 4 + x] == next[a + 4 + x]);
        }
        assert(s[a + 0] == '-');
        assert(s[a + 3] == '\n');
        assert(s.subrange(a, a + 3) =~= "---"@) by {
            assert(s[a + 1] == '-');
            assert(s[a + 2] == '-');
        }
        assert(skip_comment(s, a) == a);
        assert(next_token(s, a) == (a + 3, Ok::<TokenView, Seq<char>>(TokenView::DocStart)));
        assert(skip_comment(s, a + 3) == a + 3);
        assert(next_token(s, a + 3) == (a + 4, Ok::<TokenView, Seq<char>>(TokenView::Newline)));
        let acc = documents_tokens(docs.take(i));
        let acc1 = acc.push(TokenView::DocStart);
        let acc2 = acc1.push(TokenView::Newline);
        assert(stream_from(s, a, acc) == stream_from(s, a + 3, acc1));
        assert(stream_from(s, a + 3, acc1) == stream_from(s, a + 4, acc2));
        assert forall|m: int| 0 <= m < e.len() implies plain_word(#[trigger] e[m].0)
            && is_line_value(e[m].1) by {}
        lemma_indented_lines_stream(s, a + 4, e, 0, 0, acc2);
        lemma_indented_tokens_flat(e);
        assert(e.take(0) =~= Seq::<(Seq<char>, ValueView)>::empty());
        assert(entry_lines(e.take(0), 0).len() == 0);
        assert(indented_line_tokens(e.take(0), 0) =~= Seq::<TokenView>::empty());
        assert(acc2 + Seq::<TokenView>::empty() =~= acc2);
        assert(acc2 + line_tokens(e) =~= documents_tokens(docs.take(i + 1)));
        assert(a + 4 + el.len() == next.len());
        lemma_documents_stream(docs, i + 1);
    }
}

proof fn lemma_documents_parse(docs: Seq<ValueView>, i: int)
    requires
        0 <= i <= docs.len(),
        forall|m: int| 0 <= m < docs.len() ==> is_line_mapping(#[trigger] docs[m]),
    ensures
        documents(documents_tokens(docs), documents_tokens(docs.take(i)).len() as int, docs.take(i))
            == Ok::<Seq<ValueView>, Seq<char>>(docs),
    decreases docs.len() - i,
{
    let t = documents_tokens(docs);
    lemma_documents_tokens_prefix(docs, i);
    let q = documents_tokens(docs.take(i)).len() as int;
    if i == docs.len() {
        assert(docs.take(i) =~= docs);
        assert(skip_newlines(t, q) == q);
    } else {
        let v = docs[i];
        assert(is_line_mapping(docs[i]));
        let e = mapping_entries_of(v);
        assert(v == ValueView::Mapping(e));
        let dt = document_tokens(v);
        let lt = line_tokens(e);
        lemma_line_tokens_at(e, 0, 0);
        lemma_line_tokens_at(e, 0, 1);
        let nx = documents_tokens(docs.take(i + 1));
        assert(docs.take(i + 1).drop_last() =~= docs.take(i));
        assert(docs.take(i + 1).last() == docs[i]);
        assert(nx == documents_tokens(docs.take(i)) + dt);
        lemma_documents_tokens_prefix(docs, i + 1);
        let end = q + 2 + 4 * e.len();
        assert(nx.len() == end);
        assert forall|x: int| 0 <= x < dt.len() implies #[trigger] t[q + x] == dt[x] by {
            assert(t[q + x] == nx[q + x]);
        }
        assert(t[q + 0] == dt[0]);
        assert(t[q + 1] == dt[1]);
        assert(t[q + 2] == dt[2]);
        assert(t[q + 3] == dt[3]);
        assert(t[q] == TokenView::DocStart);
        assert(t[q + 1] == TokenView::Newline);
        assert(t[q + 2] is Scalar);
        assert(t[q + 3] == TokenView::Colon);
        assert forall|x: int| 0 <= x < 4 * e.len() implies #[trigger] t[(q + 2) + x] == lt[x] by {
            assert(t[q + (2 + x)] == dt[2 + x]);
        }
        if i + 1 < docs.len() {
            lemma_documents_tokens_prefix(docs, i + 2);
            let nn = documents_tokens(docs.take(i + 2));
            assert(docs.take(i + 2).drop_last() =~= docs.take(i + 1));
            assert(docs.take(i + 2).last() == docs[i + 1]);
            assert(nn == nx + document_tokens(docs[i + 1]));
            assert(t[end] == nn[end]);
            assert(t[end] is DocStart);
        }
        assert forall|m: int| 0 <= m < e.len() implies is_line_value(#[trigger] e[m].1) by {
            assert(plain_word(e[m].0) && is_line_value(e[m].1));
        }
        lemma_flat_mapping_at(t, q + 2, e, 0, 1);
        assert(e.take(0) =~= Seq::<(Seq<char>, ValueView)>::empty());
        assert(skip_newlines(t, q) == q);
        assert(skip_newlines(t, q + 2) == q + 2);
        assert(skip_newlines(t, q + 1) == q + 2);
        assert(crate::parser::model::peek_colon(t, q + 2));
        assert(parse_mapping(t, q + 2, 0, 0) == mapping_entries(
            t,
            q + 2,
            0,
            1,
            Seq::<(Seq<char>, ValueView)>::empty(),
        ));
        assert(parse_value(t, q + 2, 0, 0) == (end, Ok::<ValueView, Seq<char>>(v)));
        assert(skip_newlines(t, end) == end);
        assert(docs.take(i).push(v) =~= docs.take(i + 1));
        lemma_documents_parse(docs, i + 1);
    }
}

/// Several documents, each a mapping that is not empty, with distinct
/// plain-word keys in JavaScript key order and values that fit on one line,
/// each opened by `---` and written as YAML text, are read back by `parse_all`
/// as exactly those documents, in order: one value per document.
pub proof fn law_documents_read_back(docs: Seq<ValueView>)
    requires
        docs.len() >= 1,
        forall|i: int| 0 <= i < docs.len() ==> is_line_mapping(#[trigger] docs[i]),
    ensures
        parse_all_outcome(documents_text(docs)) == Ok::<
            Seq<ValueView>,
            crate::error::YamlErrorView,
        >(docs),
{
    lemma_documents_stream(docs, 0);
    let none = Seq::<ValueView>::empty();
    assert(docs.take(0) =~= none);
    assert(documents_text(none).len() == 0);
    assert(documents_tokens(none) =~= Seq::<TokenView>::empty());
    let t = documents_tokens(docs);
    assert(crate::parser::token_stream_of(documents_text(docs)) == t);
    lemma_documents_parse(docs, 0);
}


proof fn lemma_digit_mantissa(a: Seq<char>)
    requires
        all_digits(a),
        a.len() >= 1,
    ensures
        crate::scalar::is_mantissa(a),
        !a.contains('.'),
        forall|i: int| 0 <= i < a.len() ==> !crate::scalar::is_exp_char(#[trigger] a[i]),
        is_digit(a[0]),
{
    assert(is_digit(a[0]));
    assert forall|i: int| 0 <= i < a.len() implies !crate::scalar::is_exp_char(#[trigger] a[i]) by {
        assert(is_digit(a[i]));
    }
    assert(!a.contains('.')) by {
        if a.contains('.') {
            let k = choose|k: int| 0 <= k < a.len() && a[k] == '.';
            assert(is_digit(a[k]));
        }
    }
}

/// Decimal digits, after an optional sign, followed by an exponent (`e` or
/// `E`, an optional sign, one or more digits), read as a floating-point number,
/// as `f64::from_str` accepts them.
pub proof fn law_exponent_number_is_float(
    sg: Seq<char>,
    a: Seq<char>,
    x: char,
    es: Seq<char>,
    c: Seq<char>,
)
    requires
        sign_or_empty(sg),
        all_digits(a),
        a.len() >= 1,
        x == 'e' || x == 'E',
        sign_or_empty(es),
        all_digits(c),
        c.len() >= 1,
    ensures
        interpret(sg + a + seq![x] + es + c) == ValueView::Float(sg + a + seq![x] + es + c),
{
    lemma_digit_mantissa(a);
    lemma_exponent(x, es, c);
    lemma_number_text(sg + a + seq![x] + es + c, sg, a, seq![x] + es + c);
}

/// Decimal digits after an optional sign read as the integer they write when it
/// fits in 64 bits, and otherwise as a floating-point number.
pub proof fn law_digits_read_as_number(sg: Seq<char>, d: Seq<char>)
    requires
        sign_or_empty(sg),
        all_digits(d),
        d.len() >= 1,
    ensures
        ({
            let v = if sg == seq!['-'] {
                -digits_value(d)
            } else {
                digits_value(d)
            };
            interpret(sg + d) == if i64::MIN <= v <= i64::MAX {
                ValueView::Int(v as i64)
            } else {
                ValueView::Float(sg + d)
            }
        }),
{
    reveal_strlit("null");
    reveal_strlit("~");
    reveal_strlit("true");
    reveal_strlit("yes");
    reveal_strlit("false");
    reveal_strlit("no");
    lemma_digit_mantissa(d);
    let s = sg + d;
    assert(crate::scalar::strip_sign(s) == d) by {
        if sg.len() == 0 {
            assert(s =~= d);
        } else {
            assert(s.drop_first() =~= d);
        }
    }
    assert(has_sign(s, '-') <==> sg == seq!['-']) by {
        if sg.len() == 0 {
            assert(s[0] == d[0]);
        } else {
            assert(s[0] == sg[0]);
        }
    }
    if sg.len() == 0 {
        assert(s[0] == d[0]);
    } else {
        assert(s[0] == sg[0]);
    }
    assert(s != "null"@ && s != "~"@ && s != "true"@ && s != "yes"@ && s != "false"@ && s != "no"@);
    let b = crate::scalar::strip_sign(s);
    lemma_exp_index_at(b, b.len() as int);
    assert(b.take(b.len() as int) =~= d);
    assert(b.skip(b.len() as int) =~= Seq::<char>::empty());
}


/// A string on one line is written between single quotes, with each quote in
/// it doubled, when it is a word that reads as null or a boolean (`true`,
/// `false`, `null`, `~`, `yes`, `no`), when it begins with a digit, a minus
/// sign or a point, or when it holds a colon or a `#`.
pub proof fn law_quoted_strings(s: Seq<char>)
    requires
        !s.contains('\n'),
        s == "true"@ || s == "false"@ || s == "null"@ || s == "~"@ || s == "yes"@ || s == "no"@
            || (s.len() > 0 && (is_digit(s[0]) || s[0] == '-' || s[0] == '.')) || s.contains(':')
            || s.contains('#'),
    ensures
        value_text(ValueView::Str(s), 0) == "'"@ + double_quotes(s) + "'\n"@,
{
    if s.contains(':') || s.contains('#') {
        let k = choose|k: int| 0 <= k < s.len() && (s[k] == ':' || s[k] == '#');
        assert(crate::emitter::model::is_indicator(s[k]));
    }
    assert(needs_quoting(s));
}

} // verus!
