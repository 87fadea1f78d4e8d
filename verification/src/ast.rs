//! YAML values, and their mathematical views.
use vstd::prelude::*;
use crate::scalar::{all_digits, digits_value};

verus! {

/// A YAML value. A floating-point number is held as its decimal text.
#[derive(Debug, PartialEq)]
pub enum YamlValue {
    Null,
    Bool(bool),
    Int(i64),
    Float(String),
    String(String),
    Sequence(Vec<YamlValue>),
    Mapping(Vec<(String, YamlValue)>),
}

/// A YAML value as mathematics: text is a sequence of characters, a sequence a
/// sequence of values, a mapping a sequence of key and value pairs in order.
pub enum ValueView {
    Null,
    Bool(bool),
    Int(i64),
    Float(Seq<char>),
    Str(Seq<char>),
    Sequence(Seq<ValueView>),
    Mapping(Seq<(Seq<char>, ValueView)>),
}

impl YamlValue {
    pub open spec fn view_rec(&self) -> ValueView
        decreases self,
    {
        match self {
            YamlValue::Null => ValueView::Null,
            YamlValue::Bool(b) => ValueView::Bool(*b),
            YamlValue::Int(n) => ValueView::Int(*n),
            YamlValue::Float(t) => ValueView::Float(t@),
            YamlValue::String(s) => ValueView::Str(s@),
            YamlValue::Sequence(v) => ValueView::Sequence(view_items(v@)),
            YamlValue::Mapping(v) => ValueView::Mapping(view_entries(v@)),
        }
    }
}

impl View for YamlValue {
    type V = ValueView;

    open spec fn view(&self) -> ValueView {
        self.view_rec()
    }
}

/// The views of a sequence of values.
pub open spec fn view_items(s: Seq<YamlValue>) -> Seq<ValueView>
    decreases s,
{
    if s.len() == 0 {
        Seq::empty()
    } else {
        view_items(s.subrange(0, s.len() - 1)).push(s[s.len() - 1].view_rec())
    }
}

/// The views of a sequence of key and value pairs.
pub open spec fn view_entries(s: Seq<(String, YamlValue)>) -> Seq<(Seq<char>, ValueView)>
    decreases s,
{
    if s.len() == 0 {
        Seq::empty()
    } else {
        view_entries(s.subrange(0, s.len() - 1)).push(
            (s[s.len() - 1].0@, s[s.len() - 1].1.view_rec()),
        )
    }
}

pub proof fn lemma_view_items(s: Seq<YamlValue>)
    ensures
        view_items(s).len() == s.len(),
        forall|i: int| 0 <= i < s.len() ==> #[trigger] view_items(s)[i] == s[i]@,
    decreases s.len(),
{
    if s.len() > 0 {
        lemma_view_items(s.subrange(0, s.len() - 1));
    }
}

pub proof fn lemma_view_entries(s: Seq<(String, YamlValue)>)
    ensures
        view_entries(s).len() == s.len(),
        forall|i: int|
            0 <= i < s.len() ==> #[trigger] view_entries(s)[i] == (s[i].0@, s[i].1@),
    decreases s.len(),
{
    if s.len() > 0 {
        lemma_view_entries(s.subrange(0, s.len() - 1));
    }
}

pub proof fn lemma_view_items_push(s: Seq<YamlValue>, x: YamlValue)
    ensures
        view_items(s.push(x)) == view_items(s).push(x@),
{
    assert(s.push(x).subrange(0, s.len() as int) =~= s);
}

pub proof fn lemma_view_entries_push(s: Seq<(String, YamlValue)>, x: (String, YamlValue))
    ensures
        view_entries(s.push(x)) == view_entries(s).push((x.0@, x.1@)),
{
    assert(s.push(x).subrange(0, s.len() as int) =~= s);
}

pub proof fn lemma_view_entries_update(s: Seq<(String, YamlValue)>, i: int, x: (String, YamlValue))
    requires
        0 <= i < s.len(),
    ensures
        view_entries(s.update(i, x)) == view_entries(s).update(i, (x.0@, x.1@)),
{
    lemma_view_entries(s);
    lemma_view_entries(s.update(i, x));
    assert(view_entries(s.update(i, x)) =~= view_entries(s).update(i, (x.0@, x.1@)));
}

pub proof fn lemma_view_entries_insert(s: Seq<(String, YamlValue)>, i: int, x: (String, YamlValue))
    requires
        0 <= i <= s.len(),
    ensures
        view_entries(s.insert(i, x)) == view_entries(s).insert(i, (x.0@, x.1@)),
{
    lemma_view_entries(s);
    lemma_view_entries(s.insert(i, x));
    s.insert_ensures(i, x);
    view_entries(s).insert_ensures(i, (x.0@, x.1@));
    assert forall|q: int| 0 <= q < s.len() + 1 implies #[trigger] view_entries(s.insert(i, x))[q]
        == view_entries(s).insert(i, (x.0@, x.1@))[q] by {
        if q < i {
        } else if q > i {
            assert(s.insert(i, x)[q] == s[q - 1]);
        }
    }
    assert(view_entries(s.insert(i, x)) =~= view_entries(s).insert(i, (x.0@, x.1@)));
}

/// The position of the first entry with key `k`, or -1.
pub open spec fn key_index(e: Seq<(Seq<char>, ValueView)>, k: Seq<char>) -> int
    decreases e.len(),
{
    if e.len() == 0 {
        -1
    } else {
        let j = key_index(e.drop_last(), k);
        if j >= 0 {
            j
        } else if e.last().0 == k {
            e.len() - 1
        } else {
            -1
        }
    }
}

/// Whether a key names an array index, as a JavaScript object treats it: the
/// decimal text, without leading zeros, of an integer below 2^32 - 1.
pub open spec fn is_index_key(k: Seq<char>) -> bool {
    &&& k.len() >= 1
    &&& all_digits(k)
    &&& (k.len() == 1 || k[0] != '0')
    &&& digits_value(k) < 4294967295
}

/// Whether the entry `x` is an array index below the index key `k`.
pub open spec fn index_below(x: (Seq<char>, ValueView), k: Seq<char>) -> bool {
    is_index_key(x.0) && digits_value(x.0) < digits_value(k)
}

/// Where a new array index `k` goes: after the entries that are smaller array indexes.
pub open spec fn insert_pos(e: Seq<(Seq<char>, ValueView)>, k: Seq<char>) -> int
    decreases e.len(),
{
    if e.len() == 0 {
        0
    } else if index_below(e[0], k) {
        1 + insert_pos(e.drop_first(), k)
    } else {
        0
    }
}

/// The order of a JavaScript object's keys: array indexes first, in ascending
/// numeric order, then the other keys in the order they were first set.
pub open spec fn js_ordered(e: Seq<(Seq<char>, ValueView)>) -> bool {
    &&& forall|i: int, j: int|
        0 <= i < j < e.len() && is_index_key(#[trigger] e[j].0) ==> is_index_key(#[trigger] e[i].0)
    &&& forall|i: int, j: int|
        0 <= i < j < e.len() && is_index_key(#[trigger] e[i].0) && is_index_key(#[trigger] e[j].0)
            ==> digits_value(e[i].0) <= digits_value(e[j].0)
}

/// A mapping with the value for `k` set to `v`, as setting a property of a
/// JavaScript object does: an entry with key `k` keeps its place and takes the
/// new value; a new array index goes after the smaller array indexes; any other
/// new key comes last.
///
/// Every key is an ordinary entry here, `__proto__` included: a JavaScript
/// object that is given the entries one by one through `Reflect::set` (as the
/// JavaScript interface does) takes an object under that key as its prototype
/// and ignores any other value under it, so that effect is left to the object.
pub open spec fn map_set(e: Seq<(Seq<char>, ValueView)>, k: Seq<char>, v: ValueView) -> Seq<
    (Seq<char>, ValueView),
> {
    let j = key_index(e, k);
    if j >= 0 {
        e.update(j, (k, v))
    } else if is_index_key(k) {
        e.insert(insert_pos(e, k), (k, v))
    } else {
        e.push((k, v))
    }
}

pub proof fn lemma_insert_pos(e: Seq<(Seq<char>, ValueView)>, k: Seq<char>)
    ensures
        0 <= insert_pos(e, k) <= e.len(),
        forall|i: int| 0 <= i < insert_pos(e, k) ==> index_below(#[trigger] e[i], k),
        insert_pos(e, k) < e.len() ==> !index_below(e[insert_pos(e, k)], k),
    decreases e.len(),
{
    if e.len() > 0 && index_below(e[0], k) {
        lemma_insert_pos(e.drop_first(), k);
        assert forall|i: int| 0 <= i < insert_pos(e, k) implies index_below(#[trigger] e[i], k) by {
            if i > 0 {
                assert(e[i] == e.drop_first()[i - 1]);
            }
        }
    }
}

/// No two entries share a key.
pub open spec fn keys_distinct(e: Seq<(Seq<char>, ValueView)>) -> bool {
    forall|i: int, j: int| 0 <= i < j < e.len() ==> e[i].0 != e[j].0
}

pub proof fn lemma_key_index(e: Seq<(Seq<char>, ValueView)>, k: Seq<char>)
    ensures
        -1 <= key_index(e, k) < e.len(),
        key_index(e, k) >= 0 ==> e[key_index(e, k)].0 == k,
        forall|i: int| 0 <= i < e.len() && i < key_index(e, k) ==> e[i].0 != k,
        key_index(e, k) < 0 ==> forall|i: int| 0 <= i < e.len() ==> e[i].0 != k,
    decreases e.len(),
{
    if e.len() > 0 {
        lemma_key_index(e.drop_last(), k);
        assert forall|i: int| 0 <= i < e.len() - 1 implies e.drop_last()[i] == e[i] by {}
    }
}

/// Setting a key keeps the keys of a mapping distinct, and the mapping then
/// holds the new value under that key.
pub proof fn lemma_map_set(e: Seq<(Seq<char>, ValueView)>, k: Seq<char>, v: ValueView)
    requires
        keys_distinct(e),
    ensures
        keys_distinct(map_set(e, k, v)),
        key_index(map_set(e, k, v), k) >= 0,
        map_set(e, k, v)[key_index(map_set(e, k, v), k)] == (k, v),
        map_set(e, k, v).len() == if key_index(e, k) >= 0 { e.len() } else { e.len() + 1 },
{
    lemma_key_index(e, k);
    let r = map_set(e, k, v);
    if key_index(e, k) >= 0 {
        lemma_key_index(r, k);
        assert(r[key_index(e, k)].0 == k);
    } else if is_index_key(k) {
        let p = insert_pos(e, k);
        lemma_insert_pos(e, k);
        e.insert_ensures(p, (k, v));
        assert forall|i: int, j: int| 0 <= i < j < r.len() implies r[i].0 != r[j].0 by {
            if i < p {
                if j < p {
                } else if j == p {
                } else {
                    assert(r[j] == e[j - 1]);
                }
            } else if i == p {
                assert(r[j] == e[j - 1]);
            } else {
                assert(r[i] == e[i - 1]);
                assert(r[j] == e[j - 1]);
            }
        }
        lemma_key_index(r, k);
        if key_index(r, k) != p {
            assert(r[p].0 == k);
        }
    } else {
        lemma_key_index(r, k);
        assert(r[e.len() as int].0 == k);
    }
}

/// Every entry after setting a key is the new one or an entry from before.
pub proof fn lemma_map_set_members(e: Seq<(Seq<char>, ValueView)>, k: Seq<char>, v: ValueView)
    ensures
        forall|q: int|
            0 <= q < map_set(e, k, v).len() ==> #[trigger] map_set(e, k, v)[q] == (k, v) || exists|
                p: int,
            |
                0 <= p < e.len() && map_set(e, k, v)[q] == e[p],
{
    lemma_key_index(e, k);
    let r = map_set(e, k, v);
    if key_index(e, k) >= 0 {
        let j = key_index(e, k);
        assert forall|q: int| 0 <= q < r.len() implies #[trigger] r[q] == (k, v) || exists|p: int|
            0 <= p < e.len() && r[q] == e[p] by {
            if q != j {
                assert(r[q] == e[q]);
            }
        }
    } else if is_index_key(k) {
        let p = insert_pos(e, k);
        lemma_insert_pos(e, k);
        e.insert_ensures(p, (k, v));
        assert forall|q: int| 0 <= q < r.len() implies #[trigger] r[q] == (k, v) || exists|p2: int|
            0 <= p2 < e.len() && r[q] == e[p2] by {
            if q < p {
                assert(r[q] == e[q]);
            } else if q > p {
                assert(r[q] == e[q - 1]);
            }
        }
    } else {
        assert forall|q: int| 0 <= q < r.len() implies #[trigger] r[q] == (k, v) || exists|p: int|
            0 <= p < e.len() && r[q] == e[p] by {
            if q < e.len() {
                assert(r[q] == e[q]);
            }
        }
    }
}

proof fn lemma_insert_ordered(e: Seq<(Seq<char>, ValueView)>, k: Seq<char>, v: ValueView)
    requires
        js_ordered(e),
        is_index_key(k),
    ensures
        js_ordered(e.insert(insert_pos(e, k), (k, v))),
{
    let p = insert_pos(e, k);
    let r = e.insert(p, (k, v));
    lemma_insert_pos(e, k);
    e.insert_ensures(p, (k, v));
    assert forall|i: int, j: int|
        0 <= i < j < r.len() && is_index_key(#[trigger] r[j].0) implies is_index_key(
        #[trigger] r[i].0,
    ) by {
        if i < p {
            assert(r[i] == e[i]);
        } else if i > p {
            assert(r[i] == e[i - 1]);
            assert(r[j] == e[j - 1]);
        }
    }
    assert forall|i: int, j: int|
        0 <= i < j < r.len() && is_index_key(#[trigger] r[i].0) && is_index_key(#[trigger] r[j].0)
            implies digits_value(r[i].0) <= digits_value(r[j].0) by {
        if i < p {
            assert(r[i] == e[i]);
            if j < p {
                assert(r[j] == e[j]);
            } else if j > p {
                assert(r[j] == e[j - 1]);
            }
        } else if i == p {
            if j > p {
                assert(r[j] == e[j - 1]);
                assert(is_index_key(e[p].0));
                assert(!index_below(e[p], k));
                if j - 1 > p {
                    assert(digits_value(e[p].0) <= digits_value(e[j - 1].0));
                }
            }
        } else {
            assert(r[i] == e[i - 1]);
            assert(r[j] == e[j - 1]);
        }
    }
}

proof fn lemma_push_ordered(e: Seq<(Seq<char>, ValueView)>, x: (Seq<char>, ValueView))
    requires
        js_ordered(e),
        !is_index_key(x.0),
    ensures
        js_ordered(e.push(x)),
{
    let r = e.push(x);
    assert forall|i: int, j: int|
        0 <= i < j < r.len() && is_index_key(#[trigger] r[j].0) implies is_index_key(
        #[trigger] r[i].0,
    ) by {
        assert(r[i] == e[i]);
        assert(r[j] == e[j]);
    }
    assert forall|i: int, j: int|
        0 <= i < j < r.len() && is_index_key(#[trigger] r[i].0) && is_index_key(#[trigger] r[j].0)
            implies digits_value(r[i].0) <= digits_value(r[j].0) by {
        assert(r[i] == e[i]);
        assert(r[j] == e[j]);
    }
}

/// Setting a key keeps an order of keys that a JavaScript object would give.
pub proof fn lemma_map_set_ordered(e: Seq<(Seq<char>, ValueView)>, k: Seq<char>, v: ValueView)
    requires
        js_ordered(e),
    ensures
        js_ordered(map_set(e, k, v)),
{
    lemma_key_index(e, k);
    if key_index(e, k) >= 0 {
        let j = key_index(e, k);
        let r = map_set(e, k, v);
        assert forall|i: int| 0 <= i < r.len() implies #[trigger] r[i].0 == e[i].0 by {}
    } else if is_index_key(k) {
        lemma_insert_ordered(e, k, v);
    } else {
        lemma_push_ordered(e, (k, v));
    }
}

} // verus!
