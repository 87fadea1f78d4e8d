//! Writes the YAML text of a value.
use vstd::prelude::*;
use vstd::string::*;
use crate::ast::{lemma_view_entries, lemma_view_items, view_entries, view_items, YamlValue};
use crate::error::YamlError;
use crate::scalar::{chars_of, is_word};
use crate::text::{push_char, write_signed_decimal};
use super::model::{
    double_quotes, entries_height, entries_text, first_line, first_newline, height, is_collection,
    is_indicator, items_height, items_text, join, lemma_entries_height, lemma_first_newline,
    lemma_items_height, lines, pad, string_text, value_text,
};

verus! {

/// The YAML text of `value`, its block indented by `indent` columns. Every value
/// of the library can be written.
pub fn serialize(value: &YamlValue, indent: usize) -> (res: Result<String, YamlError>)
    requires
        indent + 2 * height(value@) <= usize::MAX,
    ensures
        res matches Ok(s) && s@ == value_text(value@, indent as nat),
    decreases value,
{
    match value {
        YamlValue::Null => Ok(String::from_str("null\n")),
        YamlValue::Bool(b) => {
            if *b {
                Ok(String::from_str("true\n"))
            } else {
                Ok(String::from_str("false\n"))
            }
        },
        YamlValue::Int(n) => {
            let mut s = String::new();
            write_signed_decimal(&mut s, *n);
            s.append("\n");
            Ok(s)
        },
        YamlValue::Float(t) => {
            let mut s = t.clone();
            s.append("\n");
            Ok(s)
        },
        YamlValue::String(s) => Ok(serialize_string(s.as_str(), indent)),
        YamlValue::Sequence(items) => serialize_sequence(items, indent),
        YamlValue::Mapping(entries) => serialize_mapping(entries, indent),
    }
}

/// Appends `n` spaces to `out`.
fn write_pad(out: &mut String, n: usize)
    ensures
        final(out)@ == old(out)@ + pad(n as nat),
{
    let mut i: usize = 0;
    while i < n
        invariant
            i <= n,
            out@ == old(out)@ + pad(i as nat),
        decreases n - i,
    {
        push_char(out, ' ');
        assert(out@ =~= old(out)@ + pad((i + 1) as nat));
        i = i + 1;
    }
}

/// The first newline in `cs` at or after `from`, or its length.
fn next_newline(cs: &Vec<char>, from: usize) -> (k: usize)
    requires
        from <= cs.len(),
    ensures
        from <= k <= cs.len(),
        k < cs.len() ==> cs@[k as int] == '\n',
        forall|i: int| from <= i < k ==> cs@[i] != '\n',
        k as int - from == first_newline(cs@.skip(from as int)),
{
    let mut k = from;
    while k < cs.len() && cs[k] != '\n'
        invariant
            from <= k <= cs.len(),
            forall|i: int| from <= i < k ==> cs@[i] != '\n',
        decreases cs.len() - k,
    {
        k = k + 1;
    }
    proof {
        let x = cs@.skip(from as int);
        lemma_first_newline(x);
        let f = first_newline(x);
        if f < k - from {
            assert(x[f] == cs@[from + f]);
        } else if f > k - from {
            assert(x[k - from] == cs@[k as int]);
        }
    }
    k
}

/// The first line of `s`, as `str::lines` gives it, or nothing when `s` is empty.
fn first_line_of(s: &String) -> (r: String)
    ensures
        r@ == first_line(s@),
{
    let cs = chars_of(s.as_str());
    if cs.len() == 0 {
        return String::new();
    }
    let k = next_newline(&cs, 0);
    assert(cs@.skip(0) =~= cs@);
    if k == cs.len() {
        return s.clone();
    }
    let end = if k > 0 && cs[k - 1] == '\r' {
        k - 1
    } else {
        k
    };
    let mut r = String::new();
    let mut i: usize = 0;
    while i < end
        invariant
            end <= k < cs.len(),
            i <= end,
            r@ == cs@.take(i as int),
        decreases end - i,
    {
        push_char(&mut r, cs[i]);
        assert(cs@.take(i + 1) =~= cs@.take(i as int).push(cs@[i as int]));
        i = i + 1;
    }
    proof {
        lemma_first_newline(cs@);
        let l = cs@.take(k as int);
        if k > 0 && cs@[k - 1] == '\r' {
            assert(l.drop_last() =~= cs@.take(end as int));
        } else {
            assert(l =~= cs@.take(end as int));
        }
    }
    r
}

/// Whether `s` must be quoted to be read back as that string.
fn needs_quoting(cs: &Vec<char>) -> (b: bool)
    ensures
        b == super::model::needs_quoting(cs@),
{
    if is_word(cs, "true") || is_word(cs, "false") || is_word(cs, "null") || is_word(cs, "~")
        || is_word(cs, "yes") || is_word(cs, "no") {
        return true;
    }
    if cs.len() > 0 && (('0' <= cs[0] && cs[0] <= '9') || cs[0] == '-' || cs[0] == '.') {
        return true;
    }
    let mut i: usize = 0;
    while i < cs.len()
        invariant
            i <= cs.len(),
            forall|j: int| 0 <= j < i ==> !is_indicator(#[trigger] cs@[j]),
        decreases cs.len() - i,
    {
        let c = cs[i];
        if c == ':' || c == '#' || c == '[' || c == ']' || c == '{' || c == '}' || c == ','
            || c == '&' || c == '*' || c == '?' || c == '|' || c == '>' || c == '!' || c == '%'
            || c == '@' || c == '`' {
            assert(is_indicator(cs@[i as int]));
            return true;
        }
        i = i + 1;
    }
    false
}

/// The text written for the string `s`.
fn serialize_string(s: &str, _indent: usize) -> (r: String)
    ensures
        r@ == string_text(s@),
{
    let cs = chars_of(s);
    let mut has_newline = false;
    let mut i: usize = 0;
    while i < cs.len()
        invariant
            i <= cs.len(),
            has_newline <==> exists|j: int| 0 <= j < i && cs@[j] == '\n',
        decreases cs.len() - i,
    {
        if cs[i] == '\n' {
            has_newline = true;
        }
        i = i + 1;
    }
    assert(has_newline <==> cs@.contains('\n'));
    if has_newline {
        let mut out = String::from_str("|-\n  ");
        let ghost base = out@;
        let ghost sep = "\n  "@;
        let ghost mut emitted: Seq<Seq<char>> = Seq::empty();
        let mut p: usize = 0;
        assert(cs@.skip(0) =~= cs@);
        while p < cs.len()
            invariant
                p <= cs.len(),
                cs@ == s@,
                lines(cs@) == emitted + lines(cs@.skip(p as int)),
                out@ == base + join(emitted, sep),
                p == 0 <==> emitted.len() == 0,
                sep == "\n  "@,
            decreases cs.len() - p,
        {
            let k = next_newline(&cs, p);
            let end = if k < cs.len() && k > p && cs[k - 1] == '\r' {
                k - 1
            } else {
                k
            };
            if p > 0 {
                out.append("\n  ");
            }
            let ghost before = out@;
            let mut j = p;
            while j < end
                invariant
                    p <= j <= end,
                    end <= k <= cs.len(),
                    out@ == before + cs@.subrange(p as int, j as int),
                decreases end - j,
            {
                push_char(&mut out, cs[j]);
                assert(cs@.subrange(p as int, j + 1) =~= cs@.subrange(p as int, j as int).push(
                    cs@[j as int],
                ));
                j = j + 1;
            }
            proof {
                let x = cs@.skip(p as int);
                let line = cs@.subrange(p as int, end as int);
                let l = x.take(k - p);
                if k < cs.len() {
                    if k > p && cs@[k - 1] == '\r' {
                        assert(l.drop_last() =~= line);
                    } else {
                        assert(l =~= line);
                    }
                    assert(x.skip(k - p + 1) =~= cs@.skip(k + 1));
                    assert(lines(x) == seq![line] + lines(cs@.skip(k + 1)));
                } else {
                    assert(x =~= line);
                    assert(cs@.skip(cs.len() as int) =~= Seq::<char>::empty());
                    assert(lines(x) == seq![line]);
                }
                assert(lines(cs@) =~= emitted.push(line) + lines(if k < cs.len() {
                    cs@.skip(k + 1)
                } else {
                    cs@.skip(k as int)
                }));
                if emitted.len() > 0 {
                    assert(emitted.push(line).drop_last() =~= emitted);
                }
                assert(out@ =~= base + join(emitted.push(line), sep));
                emitted = emitted.push(line);
            }
            p = if k < cs.len() {
                k + 1
            } else {
                k
            };
        }
        assert(cs@.skip(cs.len() as int) =~= Seq::<char>::empty());
        assert(emitted =~= lines(cs@));
        out.append("\n");
        return out;
    }
    if needs_quoting(&cs) {
        let mut out = String::from_str("'");
        let ghost base = out@;
        let mut i: usize = 0;
        while i < cs.len()
            invariant
                i <= cs.len(),
                out@ == base + double_quotes(cs@.take(i as int)),
            decreases cs.len() - i,
        {
            let c = cs[i];
            push_char(&mut out, c);
            if c == '\'' {
                push_char(&mut out, '\'');
            }
            assert(cs@.take(i + 1).drop_last() =~= cs@.take(i as int));
            assert(out@ =~= base + double_quotes(cs@.take(i + 1)));
            i = i + 1;
        }
        assert(cs@.take(cs.len() as int) =~= cs@);
        out.append("'\n");
        return out;
    }
    let mut out = String::from_str(s);
    out.append("\n");
    out
}

fn is_collection_value(v: &YamlValue) -> (b: bool)
    ensures
        b == is_collection(v@),
{
    match v {
        YamlValue::Sequence(_) | YamlValue::Mapping(_) => true,
        _ => false,
    }
}

/// The text written for the items of a sequence.
fn serialize_sequence(items: &Vec<YamlValue>, indent: usize) -> (res: Result<String, YamlError>)
    requires
        indent + 2 + 2 * items_height(view_items(items@)) <= usize::MAX,
    ensures
        res matches Ok(s) && s@ == items_text(view_items(items@), indent as nat),
    decreases items,
{
    let ghost vs = view_items(items@);
    proof {
        lemma_view_items(items@);
    }
    let mut out = String::new();
    let mut i: usize = 0;
    while i < items.len()
        invariant
            i <= items.len(),
            vs == view_items(items@),
            vs.len() == items.len(),
            forall|j: int| 0 <= j < items.len() ==> #[trigger] vs[j] == items@[j]@,
            indent + 2 + 2 * items_height(vs) <= usize::MAX,
            out@ == items_text(vs.take(i as int), indent as nat),
        decreases items.len() - i,
    {
        let item = &items[i];
        proof {
            lemma_items_height(vs, i as int);
            assert(vs.take(i + 1).subrange(0, i as int) =~= vs.take(i as int));
            assert(vs.take(i + 1)[i as int] == item@);
        }
        write_pad(&mut out, indent);
        if is_collection_value(item) {
            out.append("-\n");
            assert(decreases_to!(items => items@[i as int]));
            let s = match serialize(item, indent + 2) {
                Ok(s) => s,
                Err(e) => {
                    return Err(e);
                },
            };
            out.append(s.as_str());
        } else {
            out.append("- ");
            assert(height(item@) == 0);
            let s = match serialize(item, indent) {
                Ok(s) => s,
                Err(e) => {
                    return Err(e);
                },
            };
            let first = first_line_of(&s);
            out.append(first.as_str());
            out.append("\n");
        }
        assert(out@ =~= items_text(vs.take(i + 1), indent as nat));
        i = i + 1;
    }
    assert(vs.take(items.len() as int) =~= vs);
    Ok(out)
}

/// The text written for the entries of a mapping.
fn serialize_mapping(entries: &Vec<(String, YamlValue)>, indent: usize) -> (res: Result<
    String,
    YamlError,
>)
    requires
        indent + 2 + 2 * entries_height(view_entries(entries@)) <= usize::MAX,
    ensures
        res matches Ok(s) && s@ == entries_text(view_entries(entries@), indent as nat),
    decreases entries,
{
    let ghost es = view_entries(entries@);
    proof {
        lemma_view_entries(entries@);
    }
    let mut out = String::new();
    let mut i: usize = 0;
    while i < entries.len()
        invariant
            i <= entries.len(),
            es == view_entries(entries@),
            es.len() == entries.len(),
            forall|j: int|
                0 <= j < entries.len() ==> #[trigger] es[j] == (entries@[j].0@, entries@[j].1@),
            indent + 2 + 2 * entries_height(es) <= usize::MAX,
            out@ == entries_text(es.take(i as int), indent as nat),
        decreases entries.len() - i,
    {
        let key = &entries[i].0;
        let val = &entries[i].1;
        proof {
            lemma_entries_height(es, i as int);
            assert(es.take(i + 1).subrange(0, i as int) =~= es.take(i as int));
            assert(es.take(i + 1)[i as int] == (key@, val@));
        }
        write_pad(&mut out, indent);
        out.append(key.as_str());
        if is_collection_value(val) {
            out.append(":\n");
            assert(decreases_to!(entries => entries@[i as int].1));
            let s = match serialize(val, indent + 2) {
                Ok(s) => s,
                Err(e) => {
                    return Err(e);
                },
            };
            out.append(s.as_str());
        } else {
            out.append(": ");
            assert(height(val@) == 0);
            let s = match serialize(val, indent) {
                Ok(s) => s,
                Err(e) => {
                    return Err(e);
                },
            };
            let first = first_line_of(&s);
            out.append(first.as_str());
            out.append("\n");
        }
        assert(out@ =~= entries_text(es.take(i + 1), indent as nat));
        i = i + 1;
    }
    assert(es.take(entries.len() as int) =~= es);
    Ok(out)
}

} // verus!
