//! The emitter as mathematics: the YAML text written for a value.
use vstd::prelude::*;
use crate::ast::ValueView;
use crate::scalar::is_digit;
use crate::text::signed_decimal;

verus! {

/// `n` spaces.
pub open spec fn pad(n: nat) -> Seq<char> {
    Seq::new(n, |i: int| ' ')
}

/// The position of the first newline in `s`, or its length.
pub open spec fn first_newline(s: Seq<char>) -> int
    decreases s.len(),
{
    if s.len() == 0 {
        0
    } else if s[0] == '\n' {
        0
    } else {
        1 + first_newline(s.drop_first())
    }
}

/// The lines of `s` (`str::lines`): split at each newline, a carriage return before a
/// newline dropped, and no empty line after a final newline.
pub open spec fn lines(s: Seq<char>) -> Seq<Seq<char>>
    decreases s.len(),
{
    if s.len() == 0 {
        Seq::empty()
    } else {
        let k = first_newline(s);
        if k >= s.len() {
            seq![s]
        } else {
            let l = s.take(k);
            let line = if l.len() > 0 && l.last() == '\r' {
                l.drop_last()
            } else {
                l
            };
            proof {
                lemma_first_newline(s);
            }
            seq![line] + lines(s.skip(k + 1))
        }
    }
}

/// The first line of `s`, or nothing when `s` is empty.
pub open spec fn first_line(s: Seq<char>) -> Seq<char> {
    if lines(s).len() > 0 {
        lines(s)[0]
    } else {
        Seq::empty()
    }
}

/// The pieces in `ls` with `sep` between each two.
pub open spec fn join(ls: Seq<Seq<char>>, sep: Seq<char>) -> Seq<char>
    decreases ls.len(),
{
    if ls.len() == 0 {
        Seq::empty()
    } else if ls.len() == 1 {
        ls[0]
    } else {
        join(ls.drop_last(), sep) + sep + ls.last()
    }
}

/// Characters that give a plain scalar another meaning in YAML.
pub open spec fn is_indicator(c: char) -> bool {
    c == ':' || c == '#' || c == '[' || c == ']' || c == '{' || c == '}' || c == ',' || c == '&'
        || c == '*' || c == '?' || c == '|' || c == '>' || c == '!' || c == '%' || c == '@' || c
        == '`'
}

/// Whether a string must be quoted to be read back as that string: a word that
/// reads as null or a boolean, a first character that starts a number or an
/// indicator, or an indicator anywhere.
pub open spec fn needs_quoting(s: Seq<char>) -> bool {
    ||| s == "true"@ || s == "false"@ || s == "null"@ || s == "~"@ || s == "yes"@ || s == "no"@
    ||| (s.len() > 0 && (is_digit(s[0]) || s[0] == '-' || s[0] == '.'))
    ||| exists|i: int| 0 <= i < s.len() && is_indicator(#[trigger] s[i])
}

/// `s` with every single quote doubled.
pub open spec fn double_quotes(s: Seq<char>) -> Seq<char>
    decreases s.len(),
{
    if s.len() == 0 {
        Seq::empty()
    } else {
        double_quotes(s.drop_last()) + if s.last() == '\'' {
            seq!['\'', '\'']
        } else {
            seq![s.last()]
        }
    }
}

/// The text written for a string: a literal block when it spans lines, single
/// quotes when it must be quoted, the string itself otherwise.
pub open spec fn string_text(s: Seq<char>) -> Seq<char> {
    if s.contains('\n') {
        "|-\n  "@ + join(lines(s), "\n  "@) + "\n"@
    } else if needs_quoting(s) {
        "'"@ + double_quotes(s) + "'\n"@
    } else {
        s + "\n"@
    }
}

pub open spec fn is_collection(v: ValueView) -> bool {
    v is Sequence || v is Mapping
}

/// The text written for a value whose block is indented by `indent` columns.
pub open spec fn value_text(v: ValueView, indent: nat) -> Seq<char>
    decreases v,
{
    match v {
        ValueView::Null => "null\n"@,
        ValueView::Bool(b) => if b {
            "true\n"@
        } else {
            "false\n"@
        },
        ValueView::Int(n) => signed_decimal(n as int) + "\n"@,
        ValueView::Float(t) => t + "\n"@,
        ValueView::Str(s) => string_text(s),
        ValueView::Sequence(items) => items_text(items, indent),
        ValueView::Mapping(entries) => entries_text(entries, indent),
    }
}

/// The text written for the items of a sequence: a dash for each, followed by a
/// scalar's first line, or by a collection on the lines below, two columns deeper.
///
/// Only the first line of a scalar is written, by design: a string that spans
/// lines is written as `|-` alone, and its lines are not written.
pub open spec fn items_text(items: Seq<ValueView>, indent: nat) -> Seq<char>
    decreases items,
{
    if items.len() == 0 {
        Seq::empty()
    } else {
        let x = items[items.len() - 1];
        items_text(items.subrange(0, items.len() - 1), indent) + if is_collection(x) {
            pad(indent) + "-\n"@ + value_text(x, indent + 2)
        } else {
            pad(indent) + "- "@ + first_line(value_text(x, indent)) + "\n"@
        }
    }
}

/// The text written for the entries of a mapping: the key and a colon, followed by
/// a scalar's first line, or by a collection on the lines below, two columns deeper.
///
/// Only the first line of a scalar is written, by design: a string that spans
/// lines is written as `|-` alone, and its lines are not written.
pub open spec fn entries_text(entries: Seq<(Seq<char>, ValueView)>, indent: nat) -> Seq<char>
    decreases entries,
{
    if entries.len() == 0 {
        Seq::empty()
    } else {
        let (k, x) = entries[entries.len() - 1];
        entries_text(entries.subrange(0, entries.len() - 1), indent) + if is_collection(x) {
            pad(indent) + k + ":\n"@ + value_text(x, indent + 2)
        } else {
            pad(indent) + k + ": "@ + first_line(value_text(x, indent)) + "\n"@
        }
    }
}

/// How many collections are nested in `v`, `v` included.
pub open spec fn height(v: ValueView) -> nat
    decreases v,
{
    match v {
        ValueView::Sequence(items) => 1 + items_height(items),
        ValueView::Mapping(entries) => 1 + entries_height(entries),
        _ => 0,
    }
}

pub open spec fn items_height(items: Seq<ValueView>) -> nat
    decreases items,
{
    if items.len() == 0 {
        0
    } else {
        let a = items_height(items.subrange(0, items.len() - 1));
        let b = height(items[items.len() - 1]);
        if a >= b {
            a
        } else {
            b
        }
    }
}

pub open spec fn entries_height(entries: Seq<(Seq<char>, ValueView)>) -> nat
    decreases entries,
{
    if entries.len() == 0 {
        0
    } else {
        let a = entries_height(entries.subrange(0, entries.len() - 1));
        let b = height(entries[entries.len() - 1].1);
        if a >= b {
            a
        } else {
            b
        }
    }
}

pub proof fn lemma_first_newline(s: Seq<char>)
    ensures
        0 <= first_newline(s) <= s.len(),
        first_newline(s) < s.len() ==> s[first_newline(s)] == '\n',
        forall|i: int| 0 <= i < first_newline(s) ==> s[i] != '\n',
    decreases s.len(),
{
    if s.len() > 0 && s[0] != '\n' {
        lemma_first_newline(s.drop_first());
        assert forall|i: int| 0 <= i < first_newline(s) implies s[i] != '\n' by {
            if i > 0 {
                assert(s[i] == s.drop_first()[i - 1]);
            }
        }
    }
}

pub proof fn lemma_items_height(items: Seq<ValueView>, k: int)
    requires
        0 <= k < items.len(),
    ensures
        height(items[k]) <= items_height(items),
    decreases items.len(),
{
    if k < items.len() - 1 {
        lemma_items_height(items.subrange(0, items.len() - 1), k);
    }
}

pub proof fn lemma_entries_height(entries: Seq<(Seq<char>, ValueView)>, k: int)
    requires
        0 <= k < entries.len(),
    ensures
        height(entries[k].1) <= entries_height(entries),
    decreases entries.len(),
{
    if k < entries.len() - 1 {
        lemma_entries_height(entries.subrange(0, entries.len() - 1), k);
    }
}

} // verus!
