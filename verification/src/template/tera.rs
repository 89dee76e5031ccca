//! Line-oriented rendering of attribute values and before/after diffs.
//!
//! Every rendering function is specified against a spec-level counterpart
//! over the value model, so the text produced for a value tree is pinned
//! down exactly: scalars render as their plaintext, objects as a header line
//! followed by their entries one indent level deeper, and a changed scalar
//! as `key: before -> after`.

use vstd::prelude::*;

use crate::strings::int_str;
use crate::strings::joined;
use crate::strings::lex_lt;
use crate::strings::quoted;
use crate::strings::spaces;
use crate::tf::entries_size;
use crate::tf::entry_views;
use crate::tf::items_size;
use crate::tf::lemma_entries_size_le;
use crate::tf::lemma_entry_views;
use crate::tf::lemma_items_size_le;
use crate::tf::lemma_val_size_pos;
use crate::tf::lemma_value_views;
use crate::tf::val_size;
use crate::tf::value_views;
use crate::tf::Value;
use crate::tf::ValueMap;
use crate::tf::ValueView;

verus! {

/// The plaintext form of one value: strings quoted, integers in decimal,
/// floats as their decimal text, arrays in brackets, objects in braces with
/// their entries as `"key": value`, `null` and `sensitive` as those words.
pub open spec fn plain_text(v: ValueView) -> Seq<char>
    decreases val_size(v), 1int,
    via plain_text_decreases
{
    match v {
        ValueView::Str(s) => quoted(s),
        ValueView::Int(i) => int_str(i),
        ValueView::Float(f) => f,
        ValueView::Bool(b) => if b {
            seq!['t', 'r', 'u', 'e']
        } else {
            seq!['f', 'a', 'l', 's', 'e']
        },
        ValueView::Arr(items) => seq!['['] + joined(plain_texts(items), seq![',', ' ']) + seq![']'],
        ValueView::Obj(es) => seq!['{'] + joined(entry_texts(es), seq![',', ' ']) + seq!['}'],
        ValueView::Null => seq!['n', 'u', 'l', 'l'],
        ValueView::Sensitive => seq!['s', 'e', 'n', 's', 'i', 't', 'i', 'v', 'e'],
    }
}

/// The plaintext of each array item.
pub open spec fn plain_texts(items: Seq<ValueView>) -> Seq<Seq<char>>
    decreases items_size(items) + 1, 0int,
    via plain_texts_decreases
{
    if items.len() == 0 {
        Seq::empty()
    } else {
        plain_texts(items.drop_last()).push(plain_text(items.last()))
    }
}

/// The plaintext of each object entry, as `"key": value`.
pub open spec fn entry_texts(es: Seq<(Seq<char>, ValueView)>) -> Seq<Seq<char>>
    decreases entries_size(es) + 1, 0int,
    via entry_texts_decreases
{
    if es.len() == 0 {
        Seq::empty()
    } else {
        entry_texts(es.drop_last()).push(
            quoted(es.last().0) + seq![':', ' '] + plain_text(es.last().1),
        )
    }
}

#[via_fn]
proof fn plain_text_decreases(v: ValueView) {
}

#[via_fn]
proof fn plain_texts_decreases(items: Seq<ValueView>) {
    if items.len() > 0 {
        lemma_val_size_pos(items.last());
        lemma_items_size_le(items, items.len() - 1);
    }
}

#[via_fn]
proof fn entry_texts_decreases(es: Seq<(Seq<char>, ValueView)>) {
    if es.len() > 0 {
        lemma_val_size_pos(es.last().1);
        lemma_entries_size_le(es, es.len() - 1);
    }
}

/// Pointwise description of `plain_texts`.
pub proof fn lemma_plain_texts(items: Seq<ValueView>)
    ensures
        plain_texts(items).len() == items.len(),
        forall|i: int|
            0 <= i < items.len() ==> #[trigger] plain_texts(items)[i] == plain_text(items[i]),
    decreases items.len(),
{
    if items.len() > 0 {
        lemma_plain_texts(items.drop_last());
        assert(forall|i: int|
            0 <= i < items.len() - 1 ==> items.drop_last()[i] == #[trigger] items[i]);
    }
}

/// Pointwise description of `entry_texts`.
pub proof fn lemma_entry_texts(es: Seq<(Seq<char>, ValueView)>)
    ensures
        entry_texts(es).len() == es.len(),
        forall|i: int|
            0 <= i < es.len() ==> #[trigger] entry_texts(es)[i] == (quoted(es[i].0) + seq![':', ' ']
                + plain_text(es[i].1)),
    decreases es.len(),
{
    if es.len() > 0 {
        lemma_entry_texts(es.drop_last());
        assert(forall|i: int| 0 <= i < es.len() - 1 ==> es.drop_last()[i] == #[trigger] es[i]);
    }
}

/// Deep equality of two values, as their models compare.
pub fn eq_value(a: &Value, b: &Value) -> (r: bool)
    ensures
        r == (a@ == b@),
    decreases val_size(a@), 1int,
{
    match (a, b) {
        (Value::String(x), Value::String(y)) => *x == *y,
        (Value::Integer(x), Value::Integer(y)) => *x == *y,
        (Value::Float(x), Value::Float(y)) => *x == *y,
        (Value::Boolean(x), Value::Boolean(y)) => *x == *y,
        (Value::Null, Value::Null) => true,
        (Value::Sensitive, Value::Sensitive) => true,
        (Value::Array(xs), Value::Array(ys)) => eq_items(xs, ys),
        (Value::Object(ma), Value::Object(mb)) => eq_entries(&ma.entries, &mb.entries),
        _ => false,
    }
}

fn eq_items(xs: &Vec<Value>, ys: &Vec<Value>) -> (r: bool)
    ensures
        r == (value_views(xs@) == value_views(ys@)),
    decreases items_size(value_views(xs@)) + 1, 0int,
{
    proof {
        lemma_value_views(xs@);
        lemma_value_views(ys@);
    }
    if xs.len() != ys.len() {
        return false;
    }
    let mut i: usize = 0;
    while i < xs.len()
        invariant
            i <= xs@.len(),
            xs@.len() == ys@.len(),
            value_views(xs@).len() == xs@.len(),
            value_views(ys@).len() == ys@.len(),
            forall|j: int| 0 <= j < xs@.len() ==> #[trigger] value_views(xs@)[j] == value_views(
                xs@,
            )[j] && value_views(xs@)[j] == crate::tf::value_view(xs@[j]),
            forall|j: int| 0 <= j < ys@.len() ==> #[trigger] value_views(ys@)[j]
                == crate::tf::value_view(ys@[j]),
            forall|j: int| 0 <= j < i ==> value_views(xs@)[j] == value_views(ys@)[j],
        decreases xs@.len() - i,
    {
        proof {
            lemma_items_size_le(value_views(xs@), i as int);
        }
        if !eq_value(&xs[i], &ys[i]) {
            proof {
                assert(value_views(xs@)[i as int] != value_views(ys@)[i as int]);
            }
            return false;
        }
        i = i + 1;
    }
    proof {
        assert(value_views(xs@) =~= value_views(ys@));
    }
    true
}

fn eq_entries(xs: &Vec<(String, Value)>, ys: &Vec<(String, Value)>) -> (r: bool)
    ensures
        r == (entry_views(xs@) == entry_views(ys@)),
    decreases entries_size(entry_views(xs@)) + 1, 0int,
{
    proof {
        lemma_entry_views(xs@);
        lemma_entry_views(ys@);
    }
    if xs.len() != ys.len() {
        return false;
    }
    let mut i: usize = 0;
    while i < xs.len()
        invariant
            i <= xs@.len(),
            xs@.len() == ys@.len(),
            entry_views(xs@).len() == xs@.len(),
            entry_views(ys@).len() == ys@.len(),
            forall|j: int| 0 <= j < xs@.len() ==> #[trigger] entry_views(xs@)[j] == (
            xs@[j].0@,
            crate::tf::value_view(xs@[j].1),
            ),
            forall|j: int| 0 <= j < ys@.len() ==> #[trigger] entry_views(ys@)[j] == (
            ys@[j].0@,
            crate::tf::value_view(ys@[j].1),
            ),
            forall|j: int| 0 <= j < i ==> entry_views(xs@)[j] == entry_views(ys@)[j],
        decreases xs@.len() - i,
    {
        proof {
            lemma_entries_size_le(entry_views(xs@), i as int);
        }
        let keys_equal = xs[i].0 == ys[i].0;
        if !keys_equal {
            proof {
                assert(entry_views(xs@)[i as int].0 != entry_views(ys@)[i as int].0);
            }
            return false;
        }
        if !eq_value(&xs[i].1, &ys[i].1) {
            proof {
                assert(entry_views(xs@)[i as int].1 != entry_views(ys@)[i as int].1);
            }
            return false;
        }
        proof {
            assert(entry_views(xs@)[i as int] =~= entry_views(ys@)[i as int]);
        }
        i = i + 1;
    }
    proof {
        assert(entry_views(xs@) =~= entry_views(ys@));
    }
    true
}

/// Renders one value as plaintext.
pub fn render_plaintext(value: &Value) -> (r: String)
    ensures
        r@ == plain_text(value@),
    decreases val_size(value@), 1int,
{
    match value {
        Value::String(s) => crate::strings::quote_string(s.as_str()),
        Value::Integer(i) => crate::strings::int_to_string(*i),
        Value::Float(f) => f.clone(),
        Value::Boolean(b) => {
            proof {
                reveal_strlit("true");
                reveal_strlit("false");
            }
            let r = if *b {
                String::from_str("true")
            } else {
                String::from_str("false")
            };
            proof {
                assert(r@ =~= plain_text(value@));
            }
            r
        },
        Value::Null => {
            proof {
                reveal_strlit("null");
            }
            let r = String::from_str("null");
            proof {
                assert(r@ =~= plain_text(value@));
            }
            r
        },
        Value::Sensitive => {
            proof {
                reveal_strlit("sensitive");
            }
            let r = String::from_str("sensitive");
            proof {
                assert(r@ =~= plain_text(value@));
            }
            r
        },
        Value::Array(items) => {
            let ghost ivs = value_views(items@);
            proof {
                lemma_value_views(items@);
                lemma_plain_texts(ivs);
            }
            let mut parts: Vec<String> = Vec::new();
            let mut i: usize = 0;
            while i < items.len()
                invariant
                    i <= items@.len(),
                    parts@.len() == i,
                    value@ == ValueView::Arr(ivs),
                    ivs == value_views(items@),
                    ivs.len() == items@.len(),
                    forall|j: int|
                        0 <= j < items@.len() ==> #[trigger] ivs[j] == crate::tf::value_view(
                            items@[j],
                        ),
                    parts.deep_view() == plain_texts(ivs.take(i as int)),
                decreases items@.len() - i,
            {
                proof {
                    lemma_items_size_le(ivs, i as int);
                }
                let ghost prev = parts.deep_view();
                let p = render_plaintext(&items[i]);
                parts.push(p);
                proof {
                    assert(parts.deep_view() =~= prev.push(p@));
                    assert(ivs.take(i as int + 1).drop_last() =~= ivs.take(i as int));
                    assert(ivs.take(i as int + 1).last() == ivs[i as int]);
                    assert(parts.deep_view() =~= plain_texts(ivs.take(i as int + 1)));
                }
                i = i + 1;
            }
            proof {
                assert(ivs.take(ivs.len() as int) =~= ivs);
                reveal_strlit("[");
                reveal_strlit("]");
                reveal_strlit(", ");
            }
            let inner = crate::strings::join_lines(&parts, ", ");
            let mut out = String::from_str("[");
            out.append(inner.as_str());
            out.append("]");
            proof {
                assert(", "@ =~= seq![',', ' ']);
                assert(out@ =~= plain_text(value@));
            }
            out
        },
        Value::Object(m) => {
            let ghost evs = entry_views(m.entries@);
            proof {
                lemma_entry_views(m.entries@);
                lemma_entry_texts(evs);
            }
            let mut parts: Vec<String> = Vec::new();
            let mut i: usize = 0;
            while i < m.entries.len()
                invariant
                    i <= m.entries@.len(),
                    parts@.len() == i,
                    value@ == ValueView::Obj(evs),
                    evs == entry_views(m.entries@),
                    evs.len() == m.entries@.len(),
                    forall|j: int|
                        0 <= j < evs.len() ==> #[trigger] evs[j] == (
                        m.entries@[j].0@,
                        crate::tf::value_view(m.entries@[j].1),
                        ),
                    parts.deep_view() == entry_texts(evs.take(i as int)),
                decreases m.entries@.len() - i,
            {
                proof {
                    lemma_entries_size_le(evs, i as int);
                    reveal_strlit(": ");
                }
                let ghost prev = parts.deep_view();
                let mut p = crate::strings::quote_string(m.entries[i].0.as_str());
                p.append(": ");
                let vtext = render_plaintext(&m.entries[i].1);
                p.append(vtext.as_str());
                parts.push(p);
                proof {
                    assert(": "@ =~= seq![':', ' ']);
                    assert(parts.deep_view() =~= prev.push(p@));
                    assert(evs.take(i as int + 1).drop_last() =~= evs.take(i as int));
                    assert(evs.take(i as int + 1).last() == evs[i as int]);
                    assert(p@ =~= quoted(evs[i as int].0) + seq![':', ' '] + plain_text(
                        evs[i as int].1,
                    ));
                    assert(parts.deep_view() =~= entry_texts(evs.take(i as int + 1)));
                }
                i = i + 1;
            }
            proof {
                assert(evs.take(evs.len() as int) =~= evs);
                reveal_strlit("{");
                reveal_strlit("}");
                reveal_strlit(", ");
            }
            let inner = crate::strings::join_lines(&parts, ", ");
            let mut out = String::from_str("{");
            out.append(inner.as_str());
            out.append("}");
            proof {
                assert(", "@ =~= seq![',', ' ']);
                assert(out@ =~= plain_text(value@));
            }
            out
        },
    }
}

// ---------------------------------------------------------------------------
// Unchanged listings
// ---------------------------------------------------------------------------
/// The lines that list one value under its key, all marked unchanged: a
/// scalar as `key: value`, an object as a `key:` header with its entries one
/// indent level deeper.
pub open spec fn unchanged_lines(key: Seq<char>, v: ValueView, ind: Seq<char>) -> Seq<Seq<char>>
    decreases val_size(v), 2int,
    via unchanged_lines_decreases
{
    match v {
        ValueView::Obj(es) => seq![ind + key + seq![':']] + unchanged_entry_lines(
            es,
            ind + seq![' ', ' '],
        ),
        _ => seq![ind + key + seq![':', ' '] + plain_text(v)],
    }
}

/// The unchanged listing of each entry, in entry order.
pub open spec fn unchanged_entry_lines(es: Seq<(Seq<char>, ValueView)>, ind: Seq<char>) -> Seq<
    Seq<char>,
>
    decreases entries_size(es) + 1, 0int,
    via unchanged_entry_lines_decreases
{
    if es.len() == 0 {
        Seq::empty()
    } else {
        unchanged_entry_lines(es.drop_last(), ind) + unchanged_lines(
            es.last().0,
            es.last().1,
            ind,
        )
    }
}

#[via_fn]
proof fn unchanged_lines_decreases(key: Seq<char>, v: ValueView, ind: Seq<char>) {
}

#[via_fn]
proof fn unchanged_entry_lines_decreases(es: Seq<(Seq<char>, ValueView)>, ind: Seq<char>) {
    if es.len() > 0 {
        lemma_val_size_pos(es.last().1);
        lemma_entries_size_le(es, es.len() - 1);
    }
}

// ---------------------------------------------------------------------------
// Diff listings
// ---------------------------------------------------------------------------
/// The diff lines for one key: two objects recurse one indent level deeper
/// under a `key:` header; an object against null is listed unchanged; equal
/// scalars give `key: value` (or nothing when unchanged values are
/// suppressed); different scalars give `key: before -> after`.
pub open spec fn changed_lines(
    key: Seq<char>,
    b: ValueView,
    a: ValueView,
    ind: Seq<char>,
    show: bool,
) -> Seq<Seq<char>>
    decreases val_size(b) + val_size(a), 2int,
    via changed_lines_decreases
{
    match (b, a) {
        (ValueView::Obj(bes), ValueView::Obj(aes)) => seq![ind + key + seq![':']]
            + changed_entry_lines(bes, aes, ind + seq![' ', ' '], show),
        (ValueView::Null, ValueView::Obj(aes)) => unchanged_lines(key, a, ind),
        (ValueView::Obj(bes), ValueView::Null) => unchanged_lines(key, b, ind),
        _ => if b != a {
            seq![
                ind + key + seq![':', ' '] + plain_text(b) + seq![' ', '-', '>', ' ']
                    + plain_text(a),
            ]
        } else if show {
            seq![ind + key + seq![':', ' '] + plain_text(b)]
        } else {
            Seq::empty()
        },
    }
}

/// The diff lines of two key-sorted entry sequences: the union of their
/// keys in ascending order, each key diffed between the two sides, a missing
/// side standing in as null.
pub open spec fn changed_entry_lines(
    bes: Seq<(Seq<char>, ValueView)>,
    aes: Seq<(Seq<char>, ValueView)>,
    ind: Seq<char>,
    show: bool,
) -> Seq<Seq<char>>
    decreases entries_size(bes) + entries_size(aes) + 2, 0int,
    via changed_entry_lines_decreases
{
    if bes.len() == 0 && aes.len() == 0 {
        Seq::empty()
    } else if bes.len() == 0 {
        changed_entry_lines(bes, aes.drop_last(), ind, show) + changed_lines(
            aes.last().0,
            ValueView::Null,
            aes.last().1,
            ind,
            show,
        )
    } else if aes.len() == 0 {
        changed_entry_lines(bes.drop_last(), aes, ind, show) + changed_lines(
            bes.last().0,
            bes.last().1,
            ValueView::Null,
            ind,
            show,
        )
    } else if bes.last().0 == aes.last().0 {
        changed_entry_lines(bes.drop_last(), aes.drop_last(), ind, show) + changed_lines(
            bes.last().0,
            bes.last().1,
            aes.last().1,
            ind,
            show,
        )
    } else if lex_lt(bes.last().0, aes.last().0) {
        changed_entry_lines(bes, aes.drop_last(), ind, show) + changed_lines(
            aes.last().0,
            ValueView::Null,
            aes.last().1,
            ind,
            show,
        )
    } else {
        changed_entry_lines(bes.drop_last(), aes, ind, show) + changed_lines(
            bes.last().0,
            bes.last().1,
            ValueView::Null,
            ind,
            show,
        )
    }
}

#[via_fn]
proof fn changed_lines_decreases(key: Seq<char>, b: ValueView, a: ValueView, ind: Seq<char>, show: bool) {
    lemma_val_size_pos(b);
    lemma_val_size_pos(a);
}

#[via_fn]
proof fn changed_entry_lines_decreases(
    bes: Seq<(Seq<char>, ValueView)>,
    aes: Seq<(Seq<char>, ValueView)>,
    ind: Seq<char>,
    show: bool,
) {
    if bes.len() > 0 {
        lemma_val_size_pos(bes.last().1);
        lemma_entries_size_le(bes, bes.len() - 1);
    }
    if aes.len() > 0 {
        lemma_val_size_pos(aes.last().1);
        lemma_entries_size_le(aes, aes.len() - 1);
    }
}

/// Emitting the next entry of the after side extends the merged diff, as
/// long as every before entry taken so far has a smaller key.
proof fn lemma_merge_step_a(
    bes: Seq<(Seq<char>, ValueView)>,
    aes: Seq<(Seq<char>, ValueView)>,
    ind: Seq<char>,
    show: bool,
    i: int,
    j: int,
)
    requires
        0 <= i <= bes.len(),
        0 <= j < aes.len(),
        forall|t: int| 0 <= t < i ==> lex_lt((#[trigger] bes[t]).0, aes[j].0),
    ensures
        changed_entry_lines(bes.take(i), aes.take(j + 1), ind, show) == changed_entry_lines(
            bes.take(i),
            aes.take(j),
            ind,
            show,
        ) + changed_lines(aes[j].0, ValueView::Null, aes[j].1, ind, show),
{
    let bt = bes.take(i);
    let at1 = aes.take(j + 1);
    assert(at1.last() == aes[j]);
    assert(at1.drop_last() =~= aes.take(j));
    if i > 0 {
        assert(bt.last() == bes[i - 1]);
        assert(lex_lt(bes[i - 1].0, aes[j].0));
        crate::strings::lemma_lex_total(bes[i - 1].0, aes[j].0);
    }
}

/// Emitting the next entry of the before side extends the merged diff, as
/// long as every after entry taken so far has a smaller key.
proof fn lemma_merge_step_b(
    bes: Seq<(Seq<char>, ValueView)>,
    aes: Seq<(Seq<char>, ValueView)>,
    ind: Seq<char>,
    show: bool,
    i: int,
    j: int,
)
    requires
        0 <= i < bes.len(),
        0 <= j <= aes.len(),
        forall|t: int| 0 <= t < j ==> lex_lt((#[trigger] aes[t]).0, bes[i].0),
    ensures
        changed_entry_lines(bes.take(i + 1), aes.take(j), ind, show) == changed_entry_lines(
            bes.take(i),
            aes.take(j),
            ind,
            show,
        ) + changed_lines(bes[i].0, bes[i].1, ValueView::Null, ind, show),
{
    let bt1 = bes.take(i + 1);
    let at = aes.take(j);
    assert(bt1.last() == bes[i]);
    assert(bt1.drop_last() =~= bes.take(i));
    if j > 0 {
        assert(at.last() == aes[j - 1]);
        assert(lex_lt(aes[j - 1].0, bes[i].0));
        crate::strings::lemma_lex_total(aes[j - 1].0, bes[i].0);
    }
}

/// Emitting a key both sides carry extends the merged diff with the diff of
/// its two values.
proof fn lemma_merge_step_eq(
    bes: Seq<(Seq<char>, ValueView)>,
    aes: Seq<(Seq<char>, ValueView)>,
    ind: Seq<char>,
    show: bool,
    i: int,
    j: int,
)
    requires
        0 <= i < bes.len(),
        0 <= j < aes.len(),
        bes[i].0 == aes[j].0,
    ensures
        changed_entry_lines(bes.take(i + 1), aes.take(j + 1), ind, show) == changed_entry_lines(
            bes.take(i),
            aes.take(j),
            ind,
            show,
        ) + changed_lines(bes[i].0, bes[i].1, aes[j].1, ind, show),
{
    let bt1 = bes.take(i + 1);
    let at1 = aes.take(j + 1);
    assert(bt1.last() == bes[i]);
    assert(at1.last() == aes[j]);
    assert(bt1.drop_last() =~= bes.take(i));
    assert(at1.drop_last() =~= aes.take(j));
}

/// One line `prefix` + `key` + the given tail.
fn start_line(prefix: &str, key: &str) -> (r: String)
    ensures
        r@ == prefix@ + key@,
{
    let mut s = String::from_str(prefix);
    s.append(key);
    s
}

/// Lists one value under its key as unchanged, every line starting with the
/// indentation prefix.
fn render_unchanged_w(key: &str, value: &Value, prefix: &str) -> (r: Vec<String>)
    ensures
        r.deep_view() == unchanged_lines(key@, value@, prefix@),
    decreases val_size(value@), 2int,
{
    match value {
        Value::Object(m) => {
            proof {
                reveal_strlit(":");
                reveal_strlit("  ");
            }
            let mut header = start_line(prefix, key);
            header.append(":");
            let mut deeper = String::from_str(prefix);
            deeper.append("  ");
            proof {
                assert(deeper@ =~= prefix@ + seq![' ', ' ']);
            }
            let ghost hv = header@;
            let mut r: Vec<String> = Vec::new();
            r.push(header);
            let mut rest = render_unchanged_entries_w(m, deeper.as_str());
            let ghost r0 = r.deep_view();
            let ghost rest0 = rest.deep_view();
            r.append(&mut rest);
            proof {
                assert(r.deep_view() =~= r0 + rest0);
                assert(hv =~= prefix@ + key@ + seq![':']);
                assert(r0 =~= seq![hv]);
                assert(r.deep_view() =~= unchanged_lines(key@, value@, prefix@));
            }
            r
        },
        _ => {
            proof {
                reveal_strlit(": ");
            }
            let mut line = start_line(prefix, key);
            line.append(": ");
            let text = render_plaintext(value);
            line.append(text.as_str());
            let ghost lv = line@;
            let mut r: Vec<String> = Vec::new();
            r.push(line);
            proof {
                assert(": "@ =~= seq![':', ' ']);
                assert(lv =~= prefix@ + key@ + seq![':', ' '] + plain_text(value@));
                assert(r.deep_view() =~= seq![lv]);
                assert(r.deep_view() =~= unchanged_lines(key@, value@, prefix@));
            }
            r
        },
    }
}

/// Lists every entry of a map as unchanged, in entry order.
fn render_unchanged_entries_w(m: &ValueMap, prefix: &str) -> (r: Vec<String>)
    ensures
        r.deep_view() == unchanged_entry_lines(m@, prefix@),
    decreases entries_size(m@) + 1, 0int,
{
    let ghost evs = m@;
    proof {
        lemma_entry_views(m.entries@);
    }
    let mut r: Vec<String> = Vec::new();
    let mut i: usize = 0;
    while i < m.entries.len()
        invariant
            i <= m.entries@.len(),
            evs == entry_views(m.entries@),
            evs.len() == m.entries@.len(),
            forall|t: int|
                0 <= t < evs.len() ==> #[trigger] evs[t] == (
                m.entries@[t].0@,
                crate::tf::value_view(m.entries@[t].1),
                ),
            r.deep_view() == unchanged_entry_lines(evs.take(i as int), prefix@),
        decreases m.entries@.len() - i,
    {
        proof {
            lemma_entries_size_le(evs, i as int);
        }
        let mut lines = render_unchanged_w(m.entries[i].0.as_str(), &m.entries[i].1, prefix);
        let ghost r0 = r.deep_view();
        let ghost l0 = lines.deep_view();
        r.append(&mut lines);
        proof {
            assert(r.deep_view() =~= r0 + l0);
            assert(evs.take(i as int + 1).drop_last() =~= evs.take(i as int));
            assert(evs.take(i as int + 1).last() == evs[i as int]);
            assert(r.deep_view() =~= unchanged_entry_lines(evs.take(i as int + 1), prefix@));
        }
        i = i + 1;
    }
    proof {
        assert(evs.take(evs.len() as int) =~= evs);
    }
    r
}

/// Diffs one key between its before and after values, every line starting
/// with the indentation prefix.
fn render_changed_w(
    key: &str,
    before_value: &Value,
    after_value: &Value,
    prefix: &str,
    show_changed_values: bool,
) -> (r: Vec<String>)
    requires
        crate::tf::view_wf(before_value@),
        crate::tf::view_wf(after_value@),
    ensures
        r.deep_view() == changed_lines(
            key@,
            before_value@,
            after_value@,
            prefix@,
            show_changed_values,
        ),
    decreases val_size(before_value@) + val_size(after_value@), 2int,
{
    match (before_value, after_value) {
        (Value::Object(bm), Value::Object(am)) => {
            proof {
                reveal_strlit(":");
                reveal_strlit("  ");
            }
            let mut header = start_line(prefix, key);
            header.append(":");
            let mut deeper = String::from_str(prefix);
            deeper.append("  ");
            proof {
                assert(deeper@ =~= prefix@ + seq![' ', ' ']);
            }
            let ghost hv = header@;
            let mut r: Vec<String> = Vec::new();
            r.push(header);
            let mut rest = render_changed_entries_w(bm, am, deeper.as_str(), show_changed_values);
            let ghost r0 = r.deep_view();
            let ghost rest0 = rest.deep_view();
            r.append(&mut rest);
            proof {
                assert(r.deep_view() =~= r0 + rest0);
                assert(hv =~= prefix@ + key@ + seq![':']);
                assert(r0 =~= seq![hv]);
                assert(r.deep_view() =~= changed_lines(
                    key@,
                    before_value@,
                    after_value@,
                    prefix@,
                    show_changed_values,
                ));
            }
            r
        },
        (Value::Null, Value::Object(am)) => render_unchanged_w(key, after_value, prefix),
        (Value::Object(bm), Value::Null) => render_unchanged_w(key, before_value, prefix),
        _ => {
            if !eq_value(before_value, after_value) {
                proof {
                    reveal_strlit(": ");
                    reveal_strlit(" -> ");
                }
                let mut line = start_line(prefix, key);
                line.append(": ");
                let bt = render_plaintext(before_value);
                line.append(bt.as_str());
                line.append(" -> ");
                let at = render_plaintext(after_value);
                line.append(at.as_str());
                let ghost lv = line@;
                let mut r: Vec<String> = Vec::new();
                r.push(line);
                proof {
                    assert(": "@ =~= seq![':', ' ']);
                    assert(" -> "@ =~= seq![' ', '-', '>', ' ']);
                    assert(lv =~= prefix@ + key@ + seq![':', ' '] + plain_text(before_value@)
                        + seq![' ', '-', '>', ' '] + plain_text(after_value@));
                    assert(r.deep_view() =~= seq![lv]);
                    assert(r.deep_view() =~= changed_lines(
                        key@,
                        before_value@,
                        after_value@,
                        prefix@,
                        show_changed_values,
                    ));
                }
                r
            } else if show_changed_values {
                proof {
                    reveal_strlit(": ");
                }
                let mut line = start_line(prefix, key);
                line.append(": ");
                let bt = render_plaintext(before_value);
                line.append(bt.as_str());
                let ghost lv = line@;
                let mut r: Vec<String> = Vec::new();
                r.push(line);
                proof {
                    assert(": "@ =~= seq![':', ' ']);
                    assert(lv =~= prefix@ + key@ + seq![':', ' '] + plain_text(before_value@));
                    assert(r.deep_view() =~= seq![lv]);
                    assert(r.deep_view() =~= changed_lines(
                        key@,
                        before_value@,
                        after_value@,
                        prefix@,
                        show_changed_values,
                    ));
                }
                r
            } else {
                let r: Vec<String> = Vec::new();
                proof {
                    assert(r.deep_view() =~= changed_lines(
                        key@,
                        before_value@,
                        after_value@,
                        prefix@,
                        show_changed_values,
                    ));
                }
                r
            }
        },
    }
}

/// Diffs two key-sorted maps by merging their entries in key order.
fn render_changed_entries_w(
    before: &ValueMap,
    after: &ValueMap,
    prefix: &str,
    show_changed_values: bool,
) -> (r: Vec<String>)
    requires
        crate::tf::entries_sorted(before@),
        crate::tf::entries_sorted(after@),
        crate::tf::entries_wf(before@),
        crate::tf::entries_wf(after@),
    ensures
        r.deep_view() == changed_entry_lines(before@, after@, prefix@, show_changed_values),
    decreases entries_size(before@) + entries_size(after@) + 2, 0int,
{
    let ghost bes = before@;
    let ghost aes = after@;
    proof {
        lemma_entry_views(before.entries@);
        lemma_entry_views(after.entries@);
        crate::tf::lemma_entries_wf(bes);
        crate::tf::lemma_entries_wf(aes);
    }
    let blen = before.entries.len();
    let alen = after.entries.len();
    let mut r: Vec<String> = Vec::new();
    let mut i: usize = 0;
    let mut j: usize = 0;
    while i < blen || j < alen
        invariant
            i <= blen,
            j <= alen,
            bes == entry_views(before.entries@),
            aes == entry_views(after.entries@),
            blen == before.entries@.len(),
            alen == after.entries@.len(),
            bes.len() == blen,
            aes.len() == alen,
            crate::tf::entries_sorted(bes),
            crate::tf::entries_sorted(aes),
            forall|t: int| 0 <= t < bes.len() ==> crate::tf::view_wf((#[trigger] bes[t]).1),
            forall|t: int| 0 <= t < aes.len() ==> crate::tf::view_wf((#[trigger] aes[t]).1),
            forall|t: int|
                0 <= t < bes.len() ==> #[trigger] bes[t] == (
                before.entries@[t].0@,
                crate::tf::value_view(before.entries@[t].1),
                ),
            forall|t: int|
                0 <= t < aes.len() ==> #[trigger] aes[t] == (
                after.entries@[t].0@,
                crate::tf::value_view(after.entries@[t].1),
                ),
            i < blen ==> (forall|t: int| 0 <= t < j ==> lex_lt((#[trigger] aes[t]).0, bes[i as int].0)),
            j < alen ==> (forall|t: int| 0 <= t < i ==> lex_lt((#[trigger] bes[t]).0, aes[j as int].0)),
            r.deep_view() == changed_entry_lines(
                bes.take(i as int),
                aes.take(j as int),
                prefix@,
                show_changed_values,
            ),
        decreases (blen - i) + (alen - j),
    {
        let emit_b: bool = if i >= blen {
            false
        } else if j >= alen {
            true
        } else {
            crate::strings::str_eq(
                before.entries[i].0.as_str(),
                after.entries[j].0.as_str(),
            ) || crate::strings::str_lt(
                before.entries[i].0.as_str(),
                after.entries[j].0.as_str(),
            )
        };
        if emit_b && i < blen && j < alen && crate::strings::str_eq(
            before.entries[i].0.as_str(),
            after.entries[j].0.as_str(),
        ) {
            proof {
                lemma_entries_size_le(bes, i as int);
                lemma_entries_size_le(aes, j as int);
            }
            let mut lines = render_changed_w(
                before.entries[i].0.as_str(),
                &before.entries[i].1,
                &after.entries[j].1,
                prefix,
                show_changed_values,
            );
            let ghost r0 = r.deep_view();
            let ghost l0 = lines.deep_view();
            r.append(&mut lines);
            proof {
                lemma_merge_step_eq(bes, aes, prefix@, show_changed_values, i as int, j as int);
                assert(r.deep_view() =~= r0 + l0);
                assert(r.deep_view() =~= changed_entry_lines(
                    bes.take(i as int + 1),
                    aes.take(j as int + 1),
                    prefix@,
                    show_changed_values,
                ));
                assert forall|t: int| 0 <= t < j + 1 && i + 1 < blen implies lex_lt(
                    (#[trigger] aes[t]).0,
                    bes[i as int + 1].0,
                ) by {
                    assert(lex_lt(bes[i as int].0, bes[i as int + 1].0));
                    if t < j {
                        crate::strings::lemma_lex_trans(
                            aes[t].0,
                            bes[i as int].0,
                            bes[i as int + 1].0,
                        );
                    }
                }
                assert forall|t: int| 0 <= t < i + 1 && j + 1 < alen implies lex_lt(
                    (#[trigger] bes[t]).0,
                    aes[j as int + 1].0,
                ) by {
                    assert(lex_lt(aes[j as int].0, aes[j as int + 1].0));
                    if t < i {
                        crate::strings::lemma_lex_trans(
                            bes[t].0,
                            aes[j as int].0,
                            aes[j as int + 1].0,
                        );
                    }
                }
            }
            i = i + 1;
            j = j + 1;
        } else if emit_b {
            proof {
                lemma_entries_size_le(bes, i as int);
            }
            let mut lines = render_changed_w(
                before.entries[i].0.as_str(),
                &before.entries[i].1,
                &Value::Null,
                prefix,
                show_changed_values,
            );
            let ghost r0 = r.deep_view();
            let ghost l0 = lines.deep_view();
            r.append(&mut lines);
            proof {
                if j < alen {
                    crate::strings::lemma_lex_total(bes[i as int].0, aes[j as int].0);
                }
                lemma_merge_step_b(bes, aes, prefix@, show_changed_values, i as int, j as int);
                assert(r.deep_view() =~= r0 + l0);
                assert(r.deep_view() =~= changed_entry_lines(
                    bes.take(i as int + 1),
                    aes.take(j as int),
                    prefix@,
                    show_changed_values,
                ));
                assert forall|t: int| 0 <= t < j && i + 1 < blen implies lex_lt(
                    (#[trigger] aes[t]).0,
                    bes[i as int + 1].0,
                ) by {
                    assert(lex_lt(bes[i as int].0, bes[i as int + 1].0));
                    crate::strings::lemma_lex_trans(aes[t].0, bes[i as int].0, bes[i as int + 1].0);
                }
                assert forall|t: int| 0 <= t < i + 1 && j < alen implies lex_lt(
                    (#[trigger] bes[t]).0,
                    aes[j as int].0,
                ) by {
                    if t < i {
                    } else {
                        assert(lex_lt(bes[i as int].0, aes[j as int].0));
                    }
                }
            }
            i = i + 1;
        } else {
            proof {
                lemma_entries_size_le(aes, j as int);
            }
            let mut lines = render_changed_w(
                after.entries[j].0.as_str(),
                &Value::Null,
                &after.entries[j].1,
                prefix,
                show_changed_values,
            );
            let ghost r0 = r.deep_view();
            let ghost l0 = lines.deep_view();
            r.append(&mut lines);
            proof {
                if i < blen {
                    crate::strings::lemma_lex_total(bes[i as int].0, aes[j as int].0);
                }
                lemma_merge_step_a(bes, aes, prefix@, show_changed_values, i as int, j as int);
                assert(r.deep_view() =~= r0 + l0);
                assert(r.deep_view() =~= changed_entry_lines(
                    bes.take(i as int),
                    aes.take(j as int + 1),
                    prefix@,
                    show_changed_values,
                ));
                assert forall|t: int| 0 <= t < j + 1 && i < blen implies lex_lt(
                    (#[trigger] aes[t]).0,
                    bes[i as int].0,
                ) by {
                    if t < j {
                    } else {
                        assert(lex_lt(aes[j as int].0, bes[i as int].0));
                    }
                }
                assert forall|t: int| 0 <= t < i && j + 1 < alen implies lex_lt(
                    (#[trigger] bes[t]).0,
                    aes[j as int + 1].0,
                ) by {
                    assert(lex_lt(aes[j as int].0, aes[j as int + 1].0));
                    crate::strings::lemma_lex_trans(bes[t].0, aes[j as int].0, aes[j as int + 1].0);
                }
            }
            j = j + 1;
        }
    }
    proof {
        assert(bes.take(bes.len() as int) =~= bes);
        assert(aes.take(aes.len() as int) =~= aes);
    }
    r
}

/// One line listing a scalar value under its key as unchanged.
pub fn render_unchanged_plaintext(key: &str, value: &Value, indent_count: usize) -> (r: Vec<
    String,
>)
    ensures
        r.deep_view() == seq![
            spaces(indent_count as nat) + key@ + seq![':', ' '] + plain_text(value@),
        ],
{
    proof {
        reveal_strlit(": ");
    }
    let ind = crate::strings::indent_string(indent_count);
    let mut line = start_line(ind.as_str(), key);
    line.append(": ");
    let text = render_plaintext(value);
    line.append(text.as_str());
    let ghost lv = line@;
    let mut r: Vec<String> = Vec::new();
    r.push(line);
    proof {
        assert(": "@ =~= seq![':', ' ']);
        assert(lv =~= spaces(indent_count as nat) + key@ + seq![':', ' '] + plain_text(value@));
        assert(r.deep_view() =~= seq![lv]);
    }
    r
}

/// Lists every entry of a map as unchanged, at the given indent level.
pub fn render_unchanged_hashmap_value(value: &ValueMap, indent_count: usize) -> (r: Vec<String>)
    ensures
        r.deep_view() == unchanged_entry_lines(value@, spaces(indent_count as nat)),
{
    let ind = crate::strings::indent_string(indent_count);
    render_unchanged_entries_w(value, ind.as_str())
}

/// Lists a map under its key as unchanged: a `key:` header, then its
/// entries one indent level deeper.
pub fn render_unchanged_hashmap(key: &str, value: &ValueMap, indent_count: usize) -> (r: Vec<
    String,
>)
    ensures
        r.deep_view() == unchanged_lines(
            key@,
            ValueView::Obj(value@),
            spaces(indent_count as nat),
        ),
{
    proof {
        reveal_strlit(":");
        reveal_strlit("  ");
    }
    let ind = crate::strings::indent_string(indent_count);
    let mut header = start_line(ind.as_str(), key);
    header.append(":");
    let mut deeper = String::from_str(ind.as_str());
    deeper.append("  ");
    proof {
        assert(deeper@ =~= spaces(indent_count as nat) + seq![' ', ' ']);
    }
    let ghost hv = header@;
    let mut r: Vec<String> = Vec::new();
    r.push(header);
    let mut rest = render_unchanged_entries_w(value, deeper.as_str());
    let ghost r0 = r.deep_view();
    let ghost rest0 = rest.deep_view();
    r.append(&mut rest);
    proof {
        assert(r.deep_view() =~= r0 + rest0);
        assert(hv =~= spaces(indent_count as nat) + key@ + seq![':']);
        assert(r0 =~= seq![hv]);
        assert(r.deep_view() =~= unchanged_lines(
            key@,
            ValueView::Obj(value@),
            spaces(indent_count as nat),
        ));
    }
    r
}

/// Lists one value under its key as unchanged, at the given indent level.
pub fn render_unchanged(key: &str, value: &Value, indent_count: usize) -> (r: Vec<String>)
    ensures
        r.deep_view() == unchanged_lines(key@, value@, spaces(indent_count as nat)),
{
    let ind = crate::strings::indent_string(indent_count);
    render_unchanged_w(key, value, ind.as_str())
}

/// One line showing a scalar changing from its before to its after value.
pub fn render_changed_plaintext(
    key: &str,
    before_value: &Value,
    after_value: &Value,
    indent_count: usize,
) -> (r: Vec<String>)
    ensures
        r.deep_view() == seq![
            spaces(indent_count as nat) + key@ + seq![':', ' '] + plain_text(before_value@)
                + seq![' ', '-', '>', ' '] + plain_text(after_value@),
        ],
{
    proof {
        reveal_strlit(": ");
        reveal_strlit(" -> ");
    }
    let ind = crate::strings::indent_string(indent_count);
    let mut line = start_line(ind.as_str(), key);
    line.append(": ");
    let bt = render_plaintext(before_value);
    line.append(bt.as_str());
    line.append(" -> ");
    let at = render_plaintext(after_value);
    line.append(at.as_str());
    let ghost lv = line@;
    let mut r: Vec<String> = Vec::new();
    r.push(line);
    proof {
        assert(": "@ =~= seq![':', ' ']);
        assert(" -> "@ =~= seq![' ', '-', '>', ' ']);
        assert(lv =~= spaces(indent_count as nat) + key@ + seq![':', ' '] + plain_text(
            before_value@,
        ) + seq![' ', '-', '>', ' '] + plain_text(after_value@));
        assert(r.deep_view() =~= seq![lv]);
    }
    r
}

/// Diffs two key-sorted maps at the given indent level.
pub fn render_changed_hashmap_value(
    before: &ValueMap,
    after: &ValueMap,
    indent_count: usize,
    show_changed_values: bool,
) -> (r: Vec<String>)
    requires
        before.wf(),
        after.wf(),
    ensures
        r.deep_view() == changed_entry_lines(
            before@,
            after@,
            spaces(indent_count as nat),
            show_changed_values,
        ),
{
    let ind = crate::strings::indent_string(indent_count);
    render_changed_entries_w(before, after, ind.as_str(), show_changed_values)
}

/// Diffs two maps under a shared key: a `key:` header, then the diff of
/// their entries one indent level deeper.
pub fn render_changed_hashmap(
    key: &str,
    before: &ValueMap,
    after: &ValueMap,
    indent_count: usize,
    show_changed_values: bool,
) -> (r: Vec<String>)
    requires
        before.wf(),
        after.wf(),
    ensures
        r.deep_view() == changed_lines(
            key@,
            ValueView::Obj(before@),
            ValueView::Obj(after@),
            spaces(indent_count as nat),
            show_changed_values,
        ),
{
    proof {
        reveal_strlit(":");
        reveal_strlit("  ");
    }
    let ind = crate::strings::indent_string(indent_count);
    let mut header = start_line(ind.as_str(), key);
    header.append(":");
    let mut deeper = String::from_str(ind.as_str());
    deeper.append("  ");
    proof {
        assert(deeper@ =~= spaces(indent_count as nat) + seq![' ', ' ']);
    }
    let ghost hv = header@;
    let mut r: Vec<String> = Vec::new();
    r.push(header);
    let mut rest = render_changed_entries_w(before, after, deeper.as_str(), show_changed_values);
    let ghost r0 = r.deep_view();
    let ghost rest0 = rest.deep_view();
    r.append(&mut rest);
    proof {
        assert(r.deep_view() =~= r0 + rest0);
        assert(hv =~= spaces(indent_count as nat) + key@ + seq![':']);
        assert(r0 =~= seq![hv]);
        assert(r.deep_view() =~= changed_lines(
            key@,
            ValueView::Obj(before@),
            ValueView::Obj(after@),
            spaces(indent_count as nat),
            show_changed_values,
        ));
    }
    r
}

/// Diffs one key between its before and after values at the given indent
/// level.
pub fn render_changed(
    key: &str,
    before_value: &Value,
    after_value: &Value,
    indent_count: usize,
    show_changed_values: bool,
) -> (r: Vec<String>)
    requires
        before_value.wf(),
        after_value.wf(),
    ensures
        r.deep_view() == changed_lines(
            key@,
            before_value@,
            after_value@,
            spaces(indent_count as nat),
            show_changed_values,
        ),
{
    let ind = crate::strings::indent_string(indent_count);
    render_changed_w(key, before_value, after_value, ind.as_str(), show_changed_values)
}

/// The entry sequence a snapshot stands for, when there is one.
pub open spec fn opt_entries(o: Option<&ValueMap>) -> Option<Seq<(Seq<char>, ValueView)>> {
    match o {
        Option::Some(m) => Option::Some(m@),
        Option::None => Option::None,
    }
}

/// The full diff text for a pair of optional snapshots: both absent gives
/// the empty string, one side gives its unchanged listing, both sides give
/// the merged diff, all joined with newlines.
pub open spec fn render_values_text(
    before: Option<Seq<(Seq<char>, ValueView)>>,
    after: Option<Seq<(Seq<char>, ValueView)>>,
    show: bool,
) -> Seq<char> {
    match (before, after) {
        (Option::Some(bes), Option::Some(aes)) => joined(
            changed_entry_lines(bes, aes, Seq::empty(), show),
            seq!['\n'],
        ),
        (Option::Some(bes), Option::None) => joined(
            unchanged_entry_lines(bes, Seq::empty()),
            seq!['\n'],
        ),
        (Option::None, Option::Some(aes)) => joined(
            unchanged_entry_lines(aes, Seq::empty()),
            seq!['\n'],
        ),
        (Option::None, Option::None) => Seq::empty(),
    }
}

/// Renders the diff of a change's optional before and after snapshots.
pub fn render_values(
    before: Option<&ValueMap>,
    after: Option<&ValueMap>,
    show_changed_values: bool,
) -> (r: String)
    requires
        match before {
            Option::Some(m) => m.wf(),
            Option::None => true,
        },
        match after {
            Option::Some(m) => m.wf(),
            Option::None => true,
        },
    ensures
        r@ == render_values_text(opt_entries(before), opt_entries(after), show_changed_values),
{
    proof {
        reveal_strlit("");
        reveal_strlit("\n");
    }
    match (before, after) {
        (Some(b), Some(a)) => {
            let lines = render_changed_entries_w(b, a, "", show_changed_values);
            let r = crate::strings::join_lines(&lines, "\n");
            proof {
                assert(""@ =~= Seq::<char>::empty());
                assert("\n"@ =~= seq!['\n']);
            }
            r
        },
        (Some(b), None) => {
            let lines = render_unchanged_entries_w(b, "");
            let r = crate::strings::join_lines(&lines, "\n");
            proof {
                assert(""@ =~= Seq::<char>::empty());
                assert("\n"@ =~= seq!['\n']);
            }
            r
        },
        (None, Some(a)) => {
            let lines = render_unchanged_entries_w(a, "");
            let r = crate::strings::join_lines(&lines, "\n");
            proof {
                assert(""@ =~= Seq::<char>::empty());
                assert("\n"@ =~= seq!['\n']);
            }
            r
        },
        (None, None) => String::new(),
    }
}

// ---------------------------------------------------------------------------
// Laws of the diff
// ---------------------------------------------------------------------------
/// A lone snapshot is listed the same way whether it is the before or the
/// after side: the unchanged listing does not depend on which side is gone.
pub proof fn lemma_absent_side_symmetry(es: Seq<(Seq<char>, ValueView)>, show: bool)
    ensures
        render_values_text(Option::Some(es), Option::None, show) == render_values_text(
            Option::None,
            Option::Some(es),
            show,
        ),
{
}

/// Diff output is deterministic: key-sorted snapshots that denote the same
/// maps render byte-identically, whatever order they were built in.
pub proof fn lemma_diff_deterministic(
    b1: Seq<(Seq<char>, ValueView)>,
    a1: Seq<(Seq<char>, ValueView)>,
    b2: Seq<(Seq<char>, ValueView)>,
    a2: Seq<(Seq<char>, ValueView)>,
    show: bool,
)
    requires
        crate::tf::entries_sorted(b1),
        crate::tf::entries_sorted(a1),
        crate::tf::entries_sorted(b2),
        crate::tf::entries_sorted(a2),
        crate::tf::entries_map(b1) == crate::tf::entries_map(b2),
        crate::tf::entries_map(a1) == crate::tf::entries_map(a2),
    ensures
        render_values_text(Option::Some(b1), Option::Some(a1), show) == render_values_text(
            Option::Some(b2),
            Option::Some(a2),
            show,
        ),
{
    crate::tf::lemma_sorted_entries_canonical(b1, b2);
    crate::tf::lemma_sorted_entries_canonical(a1, a2);
}

/// Diffing a value against itself with unchanged values shown gives exactly
/// its unchanged listing: every key appears as `key: value`, no arrow.
pub proof fn lemma_diff_self_value(key: Seq<char>, v: ValueView, ind: Seq<char>)
    ensures
        changed_lines(key, v, v, ind, true) == unchanged_lines(key, v, ind),
    decreases val_size(v), 1int,
{
    match v {
        ValueView::Obj(es) => {
            lemma_diff_self_entries(es, ind + seq![' ', ' ']);
        },
        _ => {},
    }
}

/// Diffing a map against itself with unchanged values shown lists every
/// entry unchanged.
pub proof fn lemma_diff_self_entries(es: Seq<(Seq<char>, ValueView)>, ind: Seq<char>)
    ensures
        changed_entry_lines(es, es, ind, true) == unchanged_entry_lines(es, ind),
    decreases entries_size(es) + 1, 0int,
{
    if es.len() > 0 {
        lemma_entries_size_le(es, es.len() - 1);
        lemma_val_size_pos(es.last().1);
        lemma_diff_self_entries(es.drop_last(), ind);
        lemma_diff_self_value(es.last().0, es.last().1, ind);
    }
}

/// Diffing a snapshot against itself with unchanged values shown renders
/// exactly its lone-side listing: every key as `key: value`, no arrow.
pub proof fn lemma_diff_round_trip(es: Seq<(Seq<char>, ValueView)>)
    ensures
        render_values_text(Option::Some(es), Option::Some(es), true) == render_values_text(
            Option::Some(es),
            Option::None,
            true,
        ),
{
    lemma_diff_self_entries(es, Seq::empty());
}

/// Diffing a snapshot of scalars against itself with unchanged values
/// hidden renders the empty string. Values that are themselves objects are
/// the exception: their header lines appear even when nothing under them
/// does.
pub proof fn lemma_diff_round_trip_hidden(es: Seq<(Seq<char>, ValueView)>)
    requires
        forall|i: int| 0 <= i < es.len() ==> !((#[trigger] es[i]).1 is Obj),
    ensures
        render_values_text(Option::Some(es), Option::Some(es), false) == Seq::<char>::empty(),
{
    lemma_diff_self_hidden(es, Seq::empty());
}

/// Diffing a map of scalars against itself with unchanged values hidden
/// gives no output at all. Values that are themselves objects are the
/// exception: their header lines appear even when nothing under them does.
pub proof fn lemma_diff_self_hidden(es: Seq<(Seq<char>, ValueView)>, ind: Seq<char>)
    requires
        forall|i: int| 0 <= i < es.len() ==> !((#[trigger] es[i]).1 is Obj),
    ensures
        changed_entry_lines(es, es, ind, false) == Seq::<Seq<char>>::empty(),
    decreases es.len(),
{
    if es.len() > 0 {
        assert(forall|i: int|
            0 <= i < es.len() - 1 ==> es.drop_last()[i] == #[trigger] es[i]);
        lemma_diff_self_hidden(es.drop_last(), ind);
        assert(es[es.len() - 1] == es.last());
        assert(changed_lines(es.last().0, es.last().1, es.last().1, ind, false)
            =~= Seq::<Seq<char>>::empty());
        assert(changed_entry_lines(es, es, ind, false) =~= Seq::<Seq<char>>::empty());
    }
}

} // verus!
