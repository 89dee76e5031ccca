//! The plan data model: attribute value trees, sensitivity masks, lifecycle
//! actions and their classification, and the per-plan aggregation of changes.
//!
//! Attribute values are recursive trees of scalars, arrays and objects. An
//! object keeps its entries sorted by key, so that every well-formed map has
//! exactly one representation and all rendering is deterministic. Floating
//! point attribute values are carried as their decimal text, which is all the
//! diffing and rendering ever read of them.

use vstd::prelude::*;

use crate::strings::lex_lt;
use crate::strings::str_lt;

verus! {

broadcast use vstd::seq_lib::group_seq_properties;

// ---------------------------------------------------------------------------
// Mathematical model
// ---------------------------------------------------------------------------
/// The mathematical shape of an attribute value: scalars over `Seq<char>`,
/// `int` and `bool`, arrays as sequences, objects as key-sorted entry
/// sequences, plus the opaque marker left by masking.
#[verifier::ext_equal]
pub enum ValueView {
    Str(Seq<char>),
    Int(int),
    Float(Seq<char>),
    Bool(bool),
    Arr(Seq<ValueView>),
    Obj(Seq<(Seq<char>, ValueView)>),
    Null,
    Sensitive,
}

/// The mathematical shape of a sensitivity mask: booleans at the leaves,
/// mirroring the containers of the value it applies to.
#[verifier::ext_equal]
pub enum BoolValueView {
    Bool(bool),
    Arr(Seq<BoolValueView>),
    Obj(Seq<(Seq<char>, BoolValueView)>),
    Null,
}

/// Size of a value tree; the termination measure for walks over values.
pub open spec fn val_size(v: ValueView) -> nat
    decreases v,
{
    match v {
        ValueView::Arr(items) => 1 + items_size(items),
        ValueView::Obj(es) => 1 + entries_size(es),
        _ => 1,
    }
}

/// Combined size of a sequence of values.
pub open spec fn items_size(items: Seq<ValueView>) -> nat
    decreases items,
{
    if items.len() == 0 {
        0
    } else {
        items_size(items.drop_last()) + val_size(items.last())
    }
}

/// Combined size of the values of an entry sequence.
pub open spec fn entries_size(es: Seq<(Seq<char>, ValueView)>) -> nat
    decreases es,
{
    if es.len() == 0 {
        0
    } else {
        entries_size(es.drop_last()) + val_size(es.last().1)
    }
}

pub proof fn lemma_val_size_pos(v: ValueView)
    ensures
        val_size(v) >= 1,
{
}

pub proof fn lemma_items_size_le(items: Seq<ValueView>, i: int)
    ensures
        0 <= i < items.len() ==> val_size(items[i]) <= items_size(items),
    decreases items.len(),
{
    if items.len() > 0 && 0 <= i < items.len() {
        if i < items.len() - 1 {
            lemma_items_size_le(items.drop_last(), i);
            assert(items.drop_last()[i] == items[i]);
        }
    }
}

pub proof fn lemma_entries_size_le(es: Seq<(Seq<char>, ValueView)>, i: int)
    ensures
        0 <= i < es.len() ==> val_size(es[i].1) <= entries_size(es),
    decreases es.len(),
{
    if es.len() > 0 && 0 <= i < es.len() {
        if i < es.len() - 1 {
            lemma_entries_size_le(es.drop_last(), i);
            assert(es.drop_last()[i] == es[i]);
        }
    }
}

/// Size of a mask tree; the termination measure for walks over masks.
pub open spec fn mask_size(m: BoolValueView) -> nat
    decreases m,
{
    match m {
        BoolValueView::Arr(items) => 1 + mask_items_size(items),
        BoolValueView::Obj(es) => 1 + mask_entries_size(es),
        _ => 1,
    }
}

/// Combined size of a sequence of masks.
pub open spec fn mask_items_size(items: Seq<BoolValueView>) -> nat
    decreases items,
{
    if items.len() == 0 {
        0
    } else {
        mask_items_size(items.drop_last()) + mask_size(items.last())
    }
}

/// Combined size of the masks of an entry sequence.
pub open spec fn mask_entries_size(es: Seq<(Seq<char>, BoolValueView)>) -> nat
    decreases es,
{
    if es.len() == 0 {
        0
    } else {
        mask_entries_size(es.drop_last()) + mask_size(es.last().1)
    }
}

pub proof fn lemma_mask_size_pos(m: BoolValueView)
    ensures
        mask_size(m) >= 1,
{
}

pub proof fn lemma_mask_items_size_le(items: Seq<BoolValueView>, i: int)
    ensures
        0 <= i < items.len() ==> mask_size(items[i]) <= mask_items_size(items),
    decreases items.len(),
{
    if items.len() > 0 && 0 <= i < items.len() {
        if i < items.len() - 1 {
            lemma_mask_items_size_le(items.drop_last(), i);
            assert(items.drop_last()[i] == items[i]);
        }
    }
}

pub proof fn lemma_mask_entries_size_le(es: Seq<(Seq<char>, BoolValueView)>, i: int)
    ensures
        0 <= i < es.len() ==> mask_size(es[i].1) <= mask_entries_size(es),
    decreases es.len(),
{
    if es.len() > 0 && 0 <= i < es.len() {
        if i < es.len() - 1 {
            lemma_mask_entries_size_le(es.drop_last(), i);
            assert(es.drop_last()[i] == es[i]);
        }
    }
}

// ---------------------------------------------------------------------------
// Executable data
// ---------------------------------------------------------------------------
/// One attribute value after masking: a scalar, an array, an object, null, or
/// the opaque marker standing for a withheld sensitive value. A floating
/// point value is carried as its decimal text.
#[derive(Debug, PartialEq, Eq)]
pub enum Value {
    String(String),
    Integer(i64),
    Float(String),
    Boolean(bool),
    Array(Vec<Value>),
    Object(ValueMap),
    Null,
    Sensitive,
}

/// A string-keyed attribute map. A well-formed map keeps its entries sorted
/// strictly by key, so equal maps have equal representations.
#[derive(Debug, PartialEq, Eq)]
pub struct ValueMap {
    pub entries: Vec<(String, Value)>,
}

/// A sensitivity mask: the boolean-shaped tree that marks which parts of a
/// value are sensitive. An absent entry or `Null` means "not sensitive".
#[derive(Debug, PartialEq, Eq)]
pub enum BoolValue {
    Boolean(bool),
    Array(Vec<BoolValue>),
    Object(Vec<(String, BoolValue)>),
    Null,
}

// ---------------------------------------------------------------------------
// Views
// ---------------------------------------------------------------------------
pub open spec fn value_view(v: Value) -> ValueView
    decreases v,
{
    match v {
        Value::String(s) => ValueView::Str(s@),
        Value::Integer(i) => ValueView::Int(i as int),
        Value::Float(f) => ValueView::Float(f@),
        Value::Boolean(b) => ValueView::Bool(b),
        Value::Array(items) => ValueView::Arr(value_views(items@)),
        Value::Object(m) => ValueView::Obj(entry_views(m.entries@)),
        Value::Null => ValueView::Null,
        Value::Sensitive => ValueView::Sensitive,
    }
}

pub open spec fn value_views(vs: Seq<Value>) -> Seq<ValueView>
    decreases vs,
{
    if vs.len() == 0 {
        Seq::empty()
    } else {
        value_views(vs.drop_last()).push(value_view(vs.last()))
    }
}

pub open spec fn entry_views(es: Seq<(String, Value)>) -> Seq<(Seq<char>, ValueView)>
    decreases es,
{
    if es.len() == 0 {
        Seq::empty()
    } else {
        entry_views(es.drop_last()).push((es.last().0@, value_view(es.last().1)))
    }
}

pub open spec fn bool_value_view(b: BoolValue) -> BoolValueView
    decreases b,
{
    match b {
        BoolValue::Boolean(x) => BoolValueView::Bool(x),
        BoolValue::Array(items) => BoolValueView::Arr(bool_value_views(items@)),
        BoolValue::Object(es) => BoolValueView::Obj(bool_entry_views(es@)),
        BoolValue::Null => BoolValueView::Null,
    }
}

pub open spec fn bool_value_views(bs: Seq<BoolValue>) -> Seq<BoolValueView>
    decreases bs,
{
    if bs.len() == 0 {
        Seq::empty()
    } else {
        bool_value_views(bs.drop_last()).push(bool_value_view(bs.last()))
    }
}

pub open spec fn bool_entry_views(es: Seq<(String, BoolValue)>) -> Seq<(Seq<char>, BoolValueView)>
    decreases es,
{
    if es.len() == 0 {
        Seq::empty()
    } else {
        bool_entry_views(es.drop_last()).push((es.last().0@, bool_value_view(es.last().1)))
    }
}

impl View for Value {
    type V = ValueView;

    open spec fn view(&self) -> ValueView {
        value_view(*self)
    }
}

impl View for ValueMap {
    type V = Seq<(Seq<char>, ValueView)>;

    open spec fn view(&self) -> Seq<(Seq<char>, ValueView)> {
        entry_views(self.entries@)
    }
}

impl View for BoolValue {
    type V = BoolValueView;

    open spec fn view(&self) -> BoolValueView {
        bool_value_view(*self)
    }
}

/// Pointwise description of `value_views`.
pub proof fn lemma_value_views(vs: Seq<Value>)
    ensures
        value_views(vs).len() == vs.len(),
        forall|i: int| 0 <= i < vs.len() ==> #[trigger] value_views(vs)[i] == value_view(vs[i]),
    decreases vs.len(),
{
    if vs.len() > 0 {
        lemma_value_views(vs.drop_last());
        assert(forall|i: int| 0 <= i < vs.len() - 1 ==> vs.drop_last()[i] == #[trigger] vs[i]);
    }
}

/// Pointwise description of `entry_views`.
pub proof fn lemma_entry_views(es: Seq<(String, Value)>)
    ensures
        entry_views(es).len() == es.len(),
        forall|i: int|
            0 <= i < es.len() ==> #[trigger] entry_views(es)[i] == (
            es[i].0@,
            value_view(es[i].1),
            ),
    decreases es.len(),
{
    if es.len() > 0 {
        lemma_entry_views(es.drop_last());
        assert(forall|i: int| 0 <= i < es.len() - 1 ==> es.drop_last()[i] == #[trigger] es[i]);
    }
}

/// Pointwise description of `bool_value_views`.
pub proof fn lemma_bool_value_views(bs: Seq<BoolValue>)
    ensures
        bool_value_views(bs).len() == bs.len(),
        forall|i: int|
            0 <= i < bs.len() ==> #[trigger] bool_value_views(bs)[i] == bool_value_view(bs[i]),
    decreases bs.len(),
{
    if bs.len() > 0 {
        lemma_bool_value_views(bs.drop_last());
        assert(forall|i: int| 0 <= i < bs.len() - 1 ==> bs.drop_last()[i] == #[trigger] bs[i]);
    }
}

/// Pointwise description of `bool_entry_views`.
pub proof fn lemma_bool_entry_views(es: Seq<(String, BoolValue)>)
    ensures
        bool_entry_views(es).len() == es.len(),
        forall|i: int|
            0 <= i < es.len() ==> #[trigger] bool_entry_views(es)[i] == (
            es[i].0@,
            bool_value_view(es[i].1),
            ),
    decreases es.len(),
{
    if es.len() > 0 {
        lemma_bool_entry_views(es.drop_last());
        assert(forall|i: int| 0 <= i < es.len() - 1 ==> es.drop_last()[i] == #[trigger] es[i]);
    }
}

// ---------------------------------------------------------------------------
// Well-formedness: object entries sorted strictly by key, at every level
// ---------------------------------------------------------------------------
/// Entry keys strictly increasing in lexicographic order; keys are unique.
pub open spec fn entries_sorted<T>(es: Seq<(Seq<char>, T)>) -> bool {
    forall|i: int, j: int| 0 <= i < j < es.len() ==> lex_lt(#[trigger] es[i].0, #[trigger] es[j].0)
}

/// A well-formed value: every object in the tree keeps its entries sorted.
pub open spec fn view_wf(v: ValueView) -> bool
    decreases val_size(v), 0int,
    via view_wf_decreases
{
    match v {
        ValueView::Arr(items) => items_wf(items),
        ValueView::Obj(es) => entries_sorted(es) && entries_wf(es),
        _ => true,
    }
}

pub open spec fn items_wf(items: Seq<ValueView>) -> bool
    decreases items_size(items), 1int,
    via items_wf_decreases
{
    if items.len() == 0 {
        true
    } else {
        items_wf(items.drop_last()) && view_wf(items.last())
    }
}

pub open spec fn entries_wf(es: Seq<(Seq<char>, ValueView)>) -> bool
    decreases entries_size(es), 1int,
    via entries_wf_decreases
{
    if es.len() == 0 {
        true
    } else {
        entries_wf(es.drop_last()) && view_wf(es.last().1)
    }
}

#[via_fn]
proof fn view_wf_decreases(v: ValueView) {
}

#[via_fn]
proof fn items_wf_decreases(items: Seq<ValueView>) {
    if items.len() > 0 {
        lemma_val_size_pos(items.last());
    }
}

#[via_fn]
proof fn entries_wf_decreases(es: Seq<(Seq<char>, ValueView)>) {
    if es.len() > 0 {
        lemma_val_size_pos(es.last().1);
    }
}

/// Pointwise description of `items_wf`.
pub proof fn lemma_items_wf(items: Seq<ValueView>)
    ensures
        items_wf(items) <==> (forall|i: int| 0 <= i < items.len() ==> view_wf(#[trigger] items[i])),
    decreases items.len(),
{
    if items.len() > 0 {
        lemma_items_wf(items.drop_last());
        assert(forall|i: int|
            0 <= i < items.len() - 1 ==> items.drop_last()[i] == #[trigger] items[i]);
    }
}

/// Pointwise description of `entries_wf`.
pub proof fn lemma_entries_wf(es: Seq<(Seq<char>, ValueView)>)
    ensures
        entries_wf(es) <==> (forall|i: int| 0 <= i < es.len() ==> view_wf(#[trigger] es[i].1)),
    decreases es.len(),
{
    if es.len() > 0 {
        lemma_entries_wf(es.drop_last());
        assert(forall|i: int| 0 <= i < es.len() - 1 ==> es.drop_last()[i] == #[trigger] es[i]);
    }
}

impl Value {
    /// A well-formed value keeps every object's entries sorted by key.
    pub open spec fn wf(self) -> bool {
        view_wf(self@)
    }
}

impl ValueMap {
    /// Sorted strictly by key, every value well-formed.
    pub open spec fn wf(self) -> bool {
        entries_sorted(self@) && entries_wf(self@)
    }

    /// The map this entry sequence stands for.
    pub open spec fn as_map(self) -> Map<Seq<char>, ValueView> {
        entries_map(self@)
    }
}

// ---------------------------------------------------------------------------
// Entry sequences as maps
// ---------------------------------------------------------------------------
/// The finite map that an entry sequence denotes; a later entry for the same
/// key would override an earlier one, though well-formed sequences have no
/// duplicate keys.
pub open spec fn entries_map<T>(es: Seq<(Seq<char>, T)>) -> Map<Seq<char>, T>
    decreases es.len(),
{
    if es.len() == 0 {
        Map::empty()
    } else {
        entries_map(es.drop_last()).insert(es.last().0, es.last().1)
    }
}

/// A key is in the map exactly when some entry carries it.
pub proof fn lemma_entries_map_dom<T>(es: Seq<(Seq<char>, T)>)
    ensures
        forall|k: Seq<char>|
            entries_map(es).contains_key(k) <==> (exists|i: int|
                0 <= i < es.len() && (#[trigger] es[i]).0 == k),
    decreases es.len(),
{
    if es.len() > 0 {
        lemma_entries_map_dom(es.drop_last());
        assert forall|k: Seq<char>| entries_map(es).contains_key(k) implies (exists|i: int|
            0 <= i < es.len() && (#[trigger] es[i]).0 == k) by {
            if k == es.last().0 {
                assert(es[es.len() - 1].0 == k);
            } else {
                assert(entries_map(es.drop_last()).contains_key(k));
                let i = choose|i: int|
                    0 <= i < es.drop_last().len() && (#[trigger] es.drop_last()[i]).0 == k;
                assert(es[i] == es.drop_last()[i]);
                assert(0 <= i < es.len() && es[i].0 == k);
            }
        }
        assert forall|k: Seq<char>|
            (exists|i: int| 0 <= i < es.len() && (#[trigger] es[i]).0 == k) implies entries_map(
            es,
        ).contains_key(k) by {
            let i = choose|i: int| 0 <= i < es.len() && (#[trigger] es[i]).0 == k;
            if i < es.len() - 1 {
                assert(es.drop_last()[i].0 == k);
                assert(exists|j: int|
                    0 <= j < es.drop_last().len() && (#[trigger] es.drop_last()[j]).0 == k);
                assert(entries_map(es.drop_last()).contains_key(k));
            } else {
                assert(k == es.last().0);
            }
        }
    }
}

/// With unique keys, each entry gives the map's value at its key.
pub proof fn lemma_entries_map_index<T>(es: Seq<(Seq<char>, T)>, i: int)
    requires
        entries_sorted(es),
        0 <= i < es.len(),
    ensures
        entries_map(es).contains_key(es[i].0),
        entries_map(es)[es[i].0] == es[i].1,
    decreases es.len(),
{
    lemma_entries_map_dom(es);
    if i == es.len() - 1 {
    } else {
        assert(es.drop_last()[i] == es[i]);
        assert(lex_lt(es[i].0, es.last().0));
        crate::strings::lemma_lex_total(es[i].0, es.last().0);
        lemma_entries_map_index(es.drop_last(), i);
    }
}

/// Splicing a fresh key into an entry sequence inserts it into the map.
pub proof fn lemma_entries_map_insert_at<T>(es: Seq<(Seq<char>, T)>, idx: int, k: Seq<char>, v: T)
    requires
        0 <= idx <= es.len(),
        forall|i: int| 0 <= i < es.len() ==> (#[trigger] es[i]).0 != k,
    ensures
        entries_map(es.insert(idx, (k, v))) == entries_map(es).insert(k, v),
    decreases es.len() - idx,
{
    let b = es.insert(idx, (k, v));
    es.insert_ensures(idx, (k, v));
    if idx == es.len() {
        assert(b.drop_last() =~= es);
        assert(b.last() == (k, v));
    } else {
        assert(b.last() == es.last());
        assert(b.drop_last() =~= es.drop_last().insert(idx, (k, v)));
        assert(forall|i: int|
            0 <= i < es.len() - 1 ==> (#[trigger] es.drop_last()[i]) == es[i]);
        lemma_entries_map_insert_at(es.drop_last(), idx, k, v);
        assert(es[es.len() - 1].0 != k);
        assert(entries_map(b) == entries_map(es.drop_last()).insert(k, v).insert(
            es.last().0,
            es.last().1,
        ));
        assert(entries_map(es.drop_last()).insert(k, v).insert(es.last().0, es.last().1)
            =~= entries_map(es.drop_last()).insert(es.last().0, es.last().1).insert(k, v));
    }
}

/// Replacing the entry that carries a key overrides it in the map.
pub proof fn lemma_entries_map_update<T>(es: Seq<(Seq<char>, T)>, idx: int, k: Seq<char>, v: T)
    requires
        0 <= idx < es.len(),
        es[idx].0 == k,
        forall|i: int| 0 <= i < es.len() && i != idx ==> (#[trigger] es[i]).0 != k,
    ensures
        entries_map(es.update(idx, (k, v))) == entries_map(es).insert(k, v),
    decreases es.len() - idx,
{
    let b = es.update(idx, (k, v));
    if idx == es.len() - 1 {
        assert(b.drop_last() =~= es.drop_last());
        assert(b.last() == (k, v));
        assert(entries_map(es.drop_last()).insert(es.last().0, es.last().1).insert(k, v)
            =~= entries_map(es.drop_last()).insert(k, v));
    } else {
        assert(b.last() == es.last());
        assert(b.drop_last() =~= es.drop_last().update(idx, (k, v)));
        assert(forall|i: int|
            0 <= i < es.len() - 1 ==> (#[trigger] es.drop_last()[i]) == es[i]);
        lemma_entries_map_update(es.drop_last(), idx, k, v);
        assert(es[es.len() - 1].0 != k);
        assert(entries_map(es.drop_last()).insert(k, v).insert(es.last().0, es.last().1)
            =~= entries_map(es.drop_last()).insert(es.last().0, es.last().1).insert(k, v));
    }
}

/// Two key-sorted entry sequences that denote the same map are identical:
/// the sorted form is canonical, which makes every rendering of a map
/// independent of the order in which it was built.
pub proof fn lemma_sorted_entries_canonical<T>(
    e1: Seq<(Seq<char>, T)>,
    e2: Seq<(Seq<char>, T)>,
)
    requires
        entries_sorted(e1),
        entries_sorted(e2),
        entries_map(e1) == entries_map(e2),
    ensures
        e1 == e2,
    decreases e1.len(),
{
    lemma_entries_map_dom(e1);
    lemma_entries_map_dom(e2);
    if e1.len() == 0 {
        if e2.len() > 0 {
            assert(entries_map(e2).contains_key(e2[0].0));
        }
        assert(e1 =~= e2);
    } else if e2.len() == 0 {
        assert(entries_map(e1).contains_key(e1[0].0));
    } else {
        let k1 = e1.last().0;
        let k2 = e2.last().0;
        assert(entries_map(e2).contains_key(k1)) by {
            assert(e1[e1.len() - 1].0 == k1);
        }
        let i2 = choose|i: int| 0 <= i < e2.len() && (#[trigger] e2[i]).0 == k1;
        assert(entries_map(e1).contains_key(k2)) by {
            assert(e2[e2.len() - 1].0 == k2);
        }
        let i1 = choose|i: int| 0 <= i < e1.len() && (#[trigger] e1[i]).0 == k2;
        if i2 < e2.len() - 1 {
            assert(lex_lt(k1, k2));
        }
        if i1 < e1.len() - 1 {
            assert(lex_lt(k2, k1));
        }
        crate::strings::lemma_lex_total(k1, k2);
        assert(k1 == k2);
        lemma_entries_map_index(e1, e1.len() - 1);
        lemma_entries_map_index(e2, e2.len() - 1);
        assert(e1.last().1 == e2.last().1);
        assert forall|i: int| 0 <= i < e1.len() - 1 implies (#[trigger] e1.drop_last()[i])
            == e1[i] by {}
        assert forall|i: int| 0 <= i < e2.len() - 1 implies (#[trigger] e2.drop_last()[i])
            == e2[i] by {}
        assert(entries_map(e1.drop_last()) =~= entries_map(e1).remove(k1)) by {
            lemma_entries_map_dom(e1.drop_last());
            assert forall|k: Seq<char>| #![all_triggers]
                entries_map(e1.drop_last()).contains_key(k) implies entries_map(e1).remove(
                k1,
            ).contains_key(k) && entries_map(e1.drop_last())[k] == entries_map(e1).remove(k1)[k] by {
                let i = choose|i: int|
                    0 <= i < e1.drop_last().len() && (#[trigger] e1.drop_last()[i]).0 == k;
                assert(e1[i].0 == k);
                assert(lex_lt(e1[i].0, k1));
                crate::strings::lemma_lex_total(e1[i].0, k1);
                lemma_entries_map_index(e1, i);
                lemma_entries_map_index_sub(e1, i);
            }
            assert forall|k: Seq<char>| entries_map(e1).remove(k1).contains_key(
                k,
            ) implies entries_map(e1.drop_last()).contains_key(k) by {
                let i = choose|i: int| 0 <= i < e1.len() && (#[trigger] e1[i]).0 == k;
                assert(i < e1.len() - 1);
                assert(e1.drop_last()[i].0 == k);
            }
        }
        assert(entries_map(e2.drop_last()) =~= entries_map(e2).remove(k2)) by {
            lemma_entries_map_dom(e2.drop_last());
            assert forall|k: Seq<char>| #![all_triggers]
                entries_map(e2.drop_last()).contains_key(k) implies entries_map(e2).remove(
                k2,
            ).contains_key(k) && entries_map(e2.drop_last())[k] == entries_map(e2).remove(k2)[k] by {
                let i = choose|i: int|
                    0 <= i < e2.drop_last().len() && (#[trigger] e2.drop_last()[i]).0 == k;
                assert(e2[i].0 == k);
                assert(lex_lt(e2[i].0, k2));
                crate::strings::lemma_lex_total(e2[i].0, k2);
                lemma_entries_map_index(e2, i);
                lemma_entries_map_index_sub(e2, i);
            }
            assert forall|k: Seq<char>| entries_map(e2).remove(k2).contains_key(
                k,
            ) implies entries_map(e2.drop_last()).contains_key(k) by {
                let i = choose|i: int| 0 <= i < e2.len() && (#[trigger] e2[i]).0 == k;
                assert(i < e2.len() - 1);
                assert(e2.drop_last()[i].0 == k);
            }
        }
        lemma_sorted_entries_canonical(e1.drop_last(), e2.drop_last());
        assert forall|i: int| 0 <= i < e1.len() implies e1[i] == e2[i] by {
            if i < e1.len() - 1 {
                assert(e1[i] == e1.drop_last()[i]);
                assert(e2[i] == e2.drop_last()[i]);
            } else {
                assert(e1[i] =~= e2[i]);
            }
        }
        assert(e1 =~= e2);
    }
}

/// With unique keys, dropping the last entry keeps the earlier values.
proof fn lemma_entries_map_index_sub<T>(es: Seq<(Seq<char>, T)>, i: int)
    requires
        entries_sorted(es),
        0 <= i < es.len() - 1,
    ensures
        entries_map(es.drop_last()).contains_key(es[i].0),
        entries_map(es.drop_last())[es[i].0] == es[i].1,
{
    assert(forall|a: int|
        0 <= a < es.len() - 1 ==> (#[trigger] es.drop_last()[a]) == es[a]);
    lemma_entries_map_index(es.drop_last(), i);
}

impl ValueMap {
    /// The empty attribute map.
    pub fn new() -> (r: ValueMap)
        ensures
            r.wf(),
            r@ == Seq::<(Seq<char>, ValueView)>::empty(),
            r.as_map() == Map::<Seq<char>, ValueView>::empty(),
    {
        ValueMap { entries: Vec::new() }
    }

    /// Inserts a value under a key, replacing any value the key already had.
    /// Entries stay sorted by key, so the representation of the resulting map
    /// does not depend on insertion order.
    pub fn insert(&mut self, key: String, value: Value)
        requires
            old(self).wf(),
            value.wf(),
        ensures
            final(self).wf(),
            final(self).as_map() == old(self).as_map().insert(key@, value@),
    {
        proof {
            lemma_entry_views(self.entries@);
        }
        let ghost old_entries = self.entries@;
        let ghost old_view = self@;
        let ghost k = key@;
        let ghost vv = value@;
        let mut idx: usize = 0;
        while idx < self.entries.len() && str_lt(self.entries[idx].0.as_str(), key.as_str())
            invariant
                idx <= self.entries@.len(),
                self.entries@ == old_entries,
                forall|i: int| 0 <= i < idx ==> lex_lt((#[trigger] self.entries@[i]).0@, key@),
            decreases self.entries@.len() - idx,
        {
            idx = idx + 1;
        }
        let mut replace = false;
        if idx < self.entries.len() {
            if !str_lt(key.as_str(), self.entries[idx].0.as_str()) {
                replace = true;
            }
        }
        proof {
            lemma_entries_wf(old_view);
            assert(forall|i: int|
                0 <= i < old_view.len() ==> (#[trigger] old_view[i]) == (
                old_entries[i].0@,
                value_view(old_entries[i].1),
                ));
        }
        if replace {
            proof {
                crate::strings::lemma_lex_total(old_view[idx as int].0, k);
                assert(old_view[idx as int].0 == k);
                assert forall|i: int| 0 <= i < old_view.len() && i != idx implies (
                #[trigger] old_view[i]).0 != k by {
                    if i < idx {
                        crate::strings::lemma_lex_total(old_view[i].0, k);
                    } else {
                        assert(lex_lt(old_view[idx as int].0, old_view[i].0));
                        crate::strings::lemma_lex_total(k, old_view[i].0);
                    }
                }
                lemma_entries_map_update(old_view, idx as int, k, vv);
            }
            self.entries.remove(idx);
            self.entries.insert(idx, (key, value));
            proof {
                assert(self.entries@ =~= old_entries.update(idx as int, (key, value)));
                lemma_entry_views(self.entries@);
                assert(self@ =~= old_view.update(idx as int, (k, vv)));
                assert(forall|i: int|
                    0 <= i < self@.len() ==> (#[trigger] self@[i]).0 == old_view[i].0);
                assert(entries_sorted(self@));
                assert(forall|i: int| 0 <= i < self@.len() ==> view_wf(#[trigger] self@[i].1));
                lemma_entries_wf(self@);
            }
        } else {
            proof {
                assert forall|j: int| idx <= j < old_view.len() implies lex_lt(
                    k,
                    (#[trigger] old_view[j]).0,
                ) by {
                    if j == idx {
                        crate::strings::lemma_lex_total(old_view[idx as int].0, k);
                    } else {
                        crate::strings::lemma_lex_total(old_view[idx as int].0, k);
                        crate::strings::lemma_lex_trans(k, old_view[idx as int].0, old_view[j].0);
                    }
                }
                assert forall|i: int| 0 <= i < old_view.len() implies (#[trigger] old_view[i]).0
                    != k by {
                    if i < idx {
                        crate::strings::lemma_lex_total(old_view[i].0, k);
                    } else {
                        crate::strings::lemma_lex_total(k, old_view[i].0);
                    }
                }
                lemma_entries_map_insert_at(old_view, idx as int, k, vv);
                old_view.insert_ensures(idx as int, (k, vv));
            }
            self.entries.insert(idx, (key, value));
            proof {
                old_entries.insert_ensures(idx as int, (key, value));
                lemma_entry_views(self.entries@);
                assert(self@ =~= old_view.insert(idx as int, (k, vv)));
                assert forall|i: int, j: int| 0 <= i < j < self@.len() implies lex_lt(
                    (#[trigger] self@[i]).0,
                    (#[trigger] self@[j]).0,
                ) by {
                    if j < idx {
                    } else if i < idx && j == idx {
                        assert(self@[i].0 == old_view[i].0);
                    } else if i < idx && j > idx {
                        assert(self@[i].0 == old_view[i].0);
                        assert(self@[j].0 == old_view[j - 1].0);
                        if i == j - 1 {
                            assert(lex_lt(old_view[i].0, k));
                            crate::strings::lemma_lex_trans(old_view[i].0, k, old_view[j - 1].0);
                        }
                    } else if i == idx {
                        assert(self@[j].0 == old_view[j - 1].0);
                    } else {
                        assert(self@[i].0 == old_view[i - 1].0);
                        assert(self@[j].0 == old_view[j - 1].0);
                    }
                }
                assert(forall|i: int| 0 <= i < self@.len() ==> view_wf(#[trigger] self@[i].1));
                lemma_entries_wf(self@);
            }
        }
    }
}

// ---------------------------------------------------------------------------
// Sensitivity masking
// ---------------------------------------------------------------------------
/// The verdict a mask node gives when read as a scalar flag: `true` only for
/// a boolean `true` leaf; containers and `Null` count as "not sensitive".
pub open spec fn mask_verdict(m: BoolValueView) -> bool {
    match m {
        BoolValueView::Bool(b) => b,
        _ => false,
    }
}

/// First entry of a mask object carrying the key, if any.
pub open spec fn lookup_mask(es: Seq<(Seq<char>, BoolValueView)>, key: Seq<char>) -> Option<
    BoolValueView,
>
    decreases es.len(),
{
    if es.len() == 0 {
        Option::None
    } else if es[0].0 == key {
        Option::Some(es[0].1)
    } else {
        lookup_mask(es.drop_first(), key)
    }
}

/// The mask that applies to one key of an object: the object's entry for
/// that key, absent entries defaulting to "not sensitive"; a mask that is
/// no object hands every child its own scalar verdict.
pub open spec fn mask_child(m: BoolValueView, key: Seq<char>) -> BoolValueView {
    match m {
        BoolValueView::Obj(es) => match lookup_mask(es, key) {
            Option::Some(c) => c,
            Option::None => BoolValueView::Bool(false),
        },
        _ => BoolValueView::Bool(mask_verdict(m)),
    }
}

/// The masked form of a value: scalar leaves whose resolved verdict is
/// `true` become `Sensitive`, `Null` stays `Null`, containers keep their
/// shape and mask each child with its resolved child mask.
pub open spec fn masked(v: ValueView, m: BoolValueView) -> ValueView
    decreases val_size(v), 0int,
    via masked_decreases
{
    match v {
        ValueView::Obj(es) => ValueView::Obj(masked_entries(es, m)),
        ValueView::Arr(items) => match m {
            BoolValueView::Arr(ms) => ValueView::Arr(
                masked_items(items, ms, BoolValueView::Bool(false)),
            ),
            _ => ValueView::Arr(
                masked_items(items, Seq::empty(), BoolValueView::Bool(mask_verdict(m))),
            ),
        },
        ValueView::Null => ValueView::Null,
        _ => if mask_verdict(m) {
            ValueView::Sensitive
        } else {
            v
        },
    }
}

/// Entries masked per key.
pub open spec fn masked_entries(es: Seq<(Seq<char>, ValueView)>, m: BoolValueView) -> Seq<
    (Seq<char>, ValueView),
>
    decreases entries_size(es), 1int,
    via masked_entries_decreases
{
    if es.len() == 0 {
        Seq::empty()
    } else {
        masked_entries(es.drop_last(), m).push(
            (es.last().0, masked(es.last().1, mask_child(m, es.last().0))),
        )
    }
}

/// Items masked per index: a missing mask entry defaults to the given mask.
pub open spec fn masked_items(
    items: Seq<ValueView>,
    ms: Seq<BoolValueView>,
    dflt: BoolValueView,
) -> Seq<ValueView>
    decreases items_size(items), 1int,
    via masked_items_decreases
{
    if items.len() == 0 {
        Seq::empty()
    } else {
        let child = if items.len() - 1 < ms.len() {
            ms[items.len() - 1]
        } else {
            dflt
        };
        masked_items(items.drop_last(), ms, dflt).push(masked(items.last(), child))
    }
}

#[via_fn]
proof fn masked_decreases(v: ValueView, m: BoolValueView) {
}

#[via_fn]
proof fn masked_entries_decreases(es: Seq<(Seq<char>, ValueView)>, m: BoolValueView) {
    if es.len() > 0 {
        lemma_val_size_pos(es.last().1);
    }
}

#[via_fn]
proof fn masked_items_decreases(items: Seq<ValueView>, ms: Seq<BoolValueView>, dflt: BoolValueView) {
    if items.len() > 0 {
        lemma_val_size_pos(items.last());
    }
}

/// Pointwise description of `masked_entries`.
pub proof fn lemma_masked_entries(es: Seq<(Seq<char>, ValueView)>, m: BoolValueView)
    ensures
        masked_entries(es, m).len() == es.len(),
        forall|i: int|
            0 <= i < es.len() ==> #[trigger] masked_entries(es, m)[i] == (
            es[i].0,
            masked(es[i].1, mask_child(m, es[i].0)),
            ),
    decreases es.len(),
{
    if es.len() > 0 {
        lemma_masked_entries(es.drop_last(), m);
        assert(forall|i: int| 0 <= i < es.len() - 1 ==> (#[trigger] es.drop_last()[i]) == es[i]);
    }
}

/// Pointwise description of `masked_items`.
pub proof fn lemma_masked_items(items: Seq<ValueView>, ms: Seq<BoolValueView>, dflt: BoolValueView)
    ensures
        masked_items(items, ms, dflt).len() == items.len(),
        forall|i: int|
            0 <= i < items.len() ==> #[trigger] masked_items(items, ms, dflt)[i] == masked(
                items[i],
                if i < ms.len() {
                    ms[i]
                } else {
                    dflt
                },
            ),
    decreases items.len(),
{
    if items.len() > 0 {
        lemma_masked_items(items.drop_last(), ms, dflt);
        assert(forall|i: int|
            0 <= i < items.len() - 1 ==> (#[trigger] items.drop_last()[i]) == items[i]);
    }
}

/// Masking keeps well-formedness: keys and their order are untouched.
pub proof fn lemma_masked_wf(v: ValueView, m: BoolValueView)
    requires
        view_wf(v),
    ensures
        view_wf(masked(v, m)),
    decreases val_size(v), 0int,
{
    match v {
        ValueView::Obj(es) => {
            lemma_masked_entries(es, m);
            lemma_entries_wf(es);
            let mes = masked_entries(es, m);
            assert(entries_sorted(mes));
            assert forall|i: int| 0 <= i < mes.len() implies view_wf(#[trigger] mes[i].1) by {
                lemma_entries_size_le(es, i);
                lemma_masked_wf(es[i].1, mask_child(m, es[i].0));
            }
            lemma_entries_wf(mes);
        },
        ValueView::Arr(items) => {
            lemma_items_wf(items);
            let (ms, dflt) = match m {
                BoolValueView::Arr(ms) => (ms, BoolValueView::Bool(false)),
                _ => (Seq::empty(), BoolValueView::Bool(mask_verdict(m))),
            };
            lemma_masked_items(items, ms, dflt);
            let mis = masked_items(items, ms, dflt);
            assert forall|i: int| 0 <= i < mis.len() implies view_wf(#[trigger] mis[i]) by {
                lemma_items_size_le(items, i);
                if i < ms.len() {
                    lemma_masked_wf(items[i], ms[i]);
                } else {
                    lemma_masked_wf(items[i], dflt);
                }
            }
            lemma_items_wf(mis);
        },
        _ => {},
    }
}

/// Reads a mask node's scalar verdict.
pub fn is_sensitive(sensitive: &BoolValue) -> (r: bool)
    ensures
        r == mask_verdict(sensitive@),
{
    match sensitive {
        BoolValue::Boolean(value) => *value,
        _ => false,
    }
}

/// A copy of a mask subtree.
fn clone_bool_value(b: &BoolValue) -> (r: BoolValue)
    ensures
        r@ == b@,
    decreases mask_size(b@),
{
    match b {
        BoolValue::Boolean(x) => BoolValue::Boolean(*x),
        BoolValue::Null => BoolValue::Null,
        BoolValue::Array(items) => {
            let mut out: Vec<BoolValue> = Vec::new();
            let mut i: usize = 0;
            while i < items.len()
                invariant
                    i <= items@.len(),
                    out@.len() == i,
                    b@ == BoolValueView::Arr(bool_value_views(items@)),
                    bool_value_views(out@) == bool_value_views(items@.take(i as int)),
                decreases items@.len() - i,
            {
                proof {
                    lemma_bool_value_views(items@);
                    lemma_mask_items_size_le(bool_value_views(items@), i as int);
                }
                let ghost prev = out@;
                let c = clone_bool_value(&items[i]);
                out.push(c);
                proof {
                    assert(out@.drop_last() =~= prev);
                    assert(items@.take(i as int + 1).drop_last() =~= items@.take(i as int));
                    assert(items@.take(i as int + 1).last() == items@[i as int]);
                    assert(bool_value_views(out@) =~= bool_value_views(items@.take(i as int + 1)));
                }
                i = i + 1;
            }
            proof {
                assert(items@.take(items@.len() as int) =~= items@);
            }
            BoolValue::Array(out)
        },
        BoolValue::Object(es) => {
            let mut out: Vec<(String, BoolValue)> = Vec::new();
            let mut i: usize = 0;
            while i < es.len()
                invariant
                    i <= es@.len(),
                    out@.len() == i,
                    b@ == BoolValueView::Obj(bool_entry_views(es@)),
                    bool_entry_views(out@) == bool_entry_views(es@.take(i as int)),
                decreases es@.len() - i,
            {
                proof {
                    lemma_bool_entry_views(es@);
                    lemma_mask_entries_size_le(bool_entry_views(es@), i as int);
                }
                let ghost prev = out@;
                let key = es[i].0.clone();
                let c = clone_bool_value(&es[i].1);
                out.push((key, c));
                proof {
                    assert(out@.drop_last() =~= prev);
                    assert(es@.take(i as int + 1).drop_last() =~= es@.take(i as int));
                    assert(es@.take(i as int + 1).last() == es@[i as int]);
                    assert(bool_entry_views(out@) =~= bool_entry_views(es@.take(i as int + 1)));
                }
                i = i + 1;
            }
            proof {
                assert(es@.take(es@.len() as int) =~= es@);
            }
            BoolValue::Object(out)
        },
    }
}

/// The mask that applies to one key of an object, owned by the caller.
pub fn get_child_sensitive(sensitive: &BoolValue, key: &str) -> (r: BoolValue)
    ensures
        r@ == mask_child(sensitive@, key@),
{
    match sensitive {
        BoolValue::Object(es) => {
            let ghost vs = bool_entry_views(es@);
            proof {
                lemma_bool_entry_views(es@);
                assert(vs.skip(0) =~= vs);
            }
            let mut i: usize = 0;
            while i < es.len()
                invariant
                    i <= es@.len(),
                    vs == bool_entry_views(es@),
                    sensitive@ == BoolValueView::Obj(vs),
                    vs.len() == es@.len(),
                    forall|j: int|
                        0 <= j < es@.len() ==> #[trigger] vs[j] == (
                        es@[j].0@,
                        bool_value_view(es@[j].1),
                        ),
                    lookup_mask(vs, key@) == lookup_mask(vs.skip(i as int), key@),
                decreases es@.len() - i,
            {
                if crate::strings::str_eq(es[i].0.as_str(), key) {
                    proof {
                        assert(vs.skip(i as int)[0] == vs[i as int]);
                        assert(vs[i as int].0 == key@);
                        assert(lookup_mask(vs.skip(i as int), key@) == Option::Some(
                            vs[i as int].1,
                        ));
                        assert(mask_child(sensitive@, key@) == vs[i as int].1);
                    }
                    return clone_bool_value(&es[i].1);
                }
                proof {
                    assert(vs.skip(i as int)[0] == vs[i as int]);
                    assert(vs.skip(i as int).drop_first() =~= vs.skip(i as int + 1));
                }
                i = i + 1;
            }
            proof {
                assert(vs.skip(es@.len() as int) =~= Seq::<(Seq<char>, BoolValueView)>::empty());
            }
            BoolValue::Boolean(false)
        },
        _ => BoolValue::Boolean(is_sensitive(sensitive)),
    }
}

/// Applies a sensitivity mask to a value, replacing each scalar leaf whose
/// resolved verdict is `true` with the opaque `Sensitive` marker.
pub fn mask_sensitive(value: &Value, sensitive: &BoolValue) -> (r: Value)
    ensures
        r@ == masked(value@, sensitive@),
    decreases val_size(value@), 0int,
{
    match value {
        Value::Object(m) => Value::Object(mask_sensitive_map(m, sensitive)),
        Value::Array(items) => match sensitive {
            BoolValue::Array(ms) => Value::Array(mask_items(items, ms, &BoolValue::Boolean(false))),
            _ => {
                let flag = is_sensitive(sensitive);
                let empty_masks: Vec<BoolValue> = Vec::new();
                let r = Value::Array(mask_items(items, &empty_masks, &BoolValue::Boolean(flag)));
                proof {
                    assert(bool_value_views(empty_masks@) =~= Seq::<BoolValueView>::empty());
                }
                r
            },
        },
        Value::Null => Value::Null,
        Value::String(s) => {
            if is_sensitive(sensitive) {
                Value::Sensitive
            } else {
                Value::String(s.clone())
            }
        },
        Value::Integer(i) => {
            if is_sensitive(sensitive) {
                Value::Sensitive
            } else {
                Value::Integer(*i)
            }
        },
        Value::Float(f) => {
            if is_sensitive(sensitive) {
                Value::Sensitive
            } else {
                Value::Float(f.clone())
            }
        },
        Value::Boolean(b) => {
            if is_sensitive(sensitive) {
                Value::Sensitive
            } else {
                Value::Boolean(*b)
            }
        },
        Value::Sensitive => Value::Sensitive,
    }
}

/// Masks the items of an array: the mask for an index comes from the mask
/// array where it has one, and from the default mask beyond its length.
fn mask_items(items: &Vec<Value>, ms: &Vec<BoolValue>, dflt: &BoolValue) -> (r: Vec<Value>)
    ensures
        value_views(r@) == masked_items(value_views(items@), bool_value_views(ms@), dflt@),
    decreases items_size(value_views(items@)), 1int,
{
    let ghost ivs = value_views(items@);
    let ghost mvs = bool_value_views(ms@);
    proof {
        lemma_value_views(items@);
        lemma_bool_value_views(ms@);
        lemma_masked_items(ivs, mvs, dflt@);
    }
    let mut out: Vec<Value> = Vec::new();
    let mut i: usize = 0;
    while i < items.len()
        invariant
            i <= items@.len(),
            out@.len() == i,
            ivs == value_views(items@),
            mvs == bool_value_views(ms@),
            ivs.len() == items@.len(),
            mvs.len() == ms@.len(),
            forall|j: int| 0 <= j < items@.len() ==> #[trigger] ivs[j] == value_view(items@[j]),
            value_views(out@) == masked_items(ivs.take(i as int), mvs, dflt@),
        decreases items@.len() - i,
    {
        proof {
            lemma_items_size_le(ivs, i as int);
        }
        let ghost prev = out@;
        let masked_item = if i < ms.len() {
            mask_sensitive(&items[i], &ms[i])
        } else {
            mask_sensitive(&items[i], dflt)
        };
        out.push(masked_item);
        proof {
            lemma_bool_value_views(ms@);
            lemma_masked_items(ivs.take(i as int + 1), mvs, dflt@);
            lemma_masked_items(ivs.take(i as int), mvs, dflt@);
            lemma_value_views(out@);
            assert(out@.drop_last() =~= prev);
            assert(ivs.take(i as int + 1).drop_last() =~= ivs.take(i as int));
            assert(ivs.take(i as int + 1).last() == ivs[i as int]);
            assert(value_views(out@) =~= masked_items(ivs.take(i as int + 1), mvs, dflt@));
        }
        i = i + 1;
    }
    proof {
        assert(ivs.take(items@.len() as int) =~= ivs);
    }
    out
}

/// Masks the items of an array against a parallel mask array; an index the
/// mask array does not cover is not sensitive.
pub fn mask_sensitive_array(value_array: &Vec<Value>, sensitive_array: &Vec<BoolValue>) -> (r: Vec<
    Value,
>)
    ensures
        value_views(r@) == masked_items(
            value_views(value_array@),
            bool_value_views(sensitive_array@),
            BoolValueView::Bool(false),
        ),
{
    mask_items(value_array, sensitive_array, &BoolValue::Boolean(false))
}

/// Masks every entry of an attribute map with its resolved child mask.
pub fn mask_sensitive_map(value_map: &ValueMap, sensitive: &BoolValue) -> (r: ValueMap)
    ensures
        r@ == masked_entries(value_map@, sensitive@),
        value_map.wf() ==> r.wf(),
    decreases entries_size(value_map@), 1int,
{
    let ghost evs = value_map@;
    proof {
        lemma_entry_views(value_map.entries@);
        lemma_masked_entries(evs, sensitive@);
    }
    let mut out: Vec<(String, Value)> = Vec::new();
    let mut i: usize = 0;
    while i < value_map.entries.len()
        invariant
            i <= value_map.entries@.len(),
            out@.len() == i,
            evs == entry_views(value_map.entries@),
            evs.len() == value_map.entries@.len(),
            forall|j: int|
                0 <= j < evs.len() ==> #[trigger] evs[j] == (
                value_map.entries@[j].0@,
                value_view(value_map.entries@[j].1),
                ),
            entry_views(out@) == masked_entries(evs.take(i as int), sensitive@),
        decreases value_map.entries@.len() - i,
    {
        proof {
            lemma_entries_size_le(evs, i as int);
        }
        let ghost prev = out@;
        let key = value_map.entries[i].0.clone();
        let child = get_child_sensitive(sensitive, key.as_str());
        let masked_value = mask_sensitive(&value_map.entries[i].1, &child);
        out.push((key, masked_value));
        proof {
            lemma_masked_entries(evs.take(i as int + 1), sensitive@);
            lemma_masked_entries(evs.take(i as int), sensitive@);
            lemma_entry_views(out@);
            assert(out@.drop_last() =~= prev);
            assert(evs.take(i as int + 1).drop_last() =~= evs.take(i as int));
            assert(evs.take(i as int + 1).last() == evs[i as int]);
            assert(entry_views(out@) =~= masked_entries(evs.take(i as int + 1), sensitive@));
        }
        i = i + 1;
    }
    let r = ValueMap { entries: out };
    proof {
        assert(evs.take(evs.len() as int) =~= evs);
        if value_map.wf() {
            lemma_masked_wf(ValueView::Obj(evs), sensitive@);
        }
    }
    r
}

/// A mask none of whose leaves is `true`: it marks nothing sensitive.
pub open spec fn mask_none(m: BoolValueView) -> bool
    decreases mask_size(m), 0int,
{
    match m {
        BoolValueView::Bool(b) => !b,
        BoolValueView::Arr(ms) => mask_items_none(ms),
        BoolValueView::Obj(es) => mask_entries_none(es),
        BoolValueView::Null => true,
    }
}

pub open spec fn mask_items_none(ms: Seq<BoolValueView>) -> bool
    decreases mask_items_size(ms), 1int,
    via mask_items_none_decreases
{
    if ms.len() == 0 {
        true
    } else {
        mask_items_none(ms.drop_last()) && mask_none(ms.last())
    }
}

pub open spec fn mask_entries_none(es: Seq<(Seq<char>, BoolValueView)>) -> bool
    decreases mask_entries_size(es), 1int,
    via mask_entries_none_decreases
{
    if es.len() == 0 {
        true
    } else {
        mask_entries_none(es.drop_last()) && mask_none(es.last().1)
    }
}

#[via_fn]
proof fn mask_items_none_decreases(ms: Seq<BoolValueView>) {
    if ms.len() > 0 {
        lemma_mask_size_pos(ms.last());
    }
}

#[via_fn]
proof fn mask_entries_none_decreases(es: Seq<(Seq<char>, BoolValueView)>) {
    if es.len() > 0 {
        lemma_mask_size_pos(es.last().1);
    }
}

/// Pointwise description of `mask_items_none`.
pub proof fn lemma_mask_items_none(ms: Seq<BoolValueView>)
    ensures
        mask_items_none(ms) <==> (forall|i: int| 0 <= i < ms.len() ==> mask_none(#[trigger] ms[i])),
    decreases ms.len(),
{
    if ms.len() > 0 {
        lemma_mask_items_none(ms.drop_last());
        assert(forall|i: int| 0 <= i < ms.len() - 1 ==> ms.drop_last()[i] == #[trigger] ms[i]);
    }
}

/// Pointwise description of `mask_entries_none`.
pub proof fn lemma_mask_entries_none(es: Seq<(Seq<char>, BoolValueView)>)
    ensures
        mask_entries_none(es) <==> (forall|i: int|
            0 <= i < es.len() ==> mask_none(#[trigger] es[i].1)),
    decreases es.len(),
{
    if es.len() > 0 {
        lemma_mask_entries_none(es.drop_last());
        assert(forall|i: int| 0 <= i < es.len() - 1 ==> es.drop_last()[i] == #[trigger] es[i]);
    }
}

/// A mask that marks nothing leaves every key's child mask marking nothing.
proof fn lemma_mask_child_none(m: BoolValueView, key: Seq<char>)
    requires
        mask_none(m),
    ensures
        mask_none(mask_child(m, key)),
{
    match m {
        BoolValueView::Obj(es) => {
            lemma_lookup_mask_none(es, key);
        },
        _ => {},
    }
}

proof fn lemma_lookup_mask_none(es: Seq<(Seq<char>, BoolValueView)>, key: Seq<char>)
    requires
        mask_entries_none(es),
    ensures
        match lookup_mask(es, key) {
            Option::Some(c) => mask_none(c),
            Option::None => true,
        },
    decreases es.len(),
{
    lemma_mask_entries_none(es);
    if es.len() > 0 && es[0].0 != key {
        lemma_mask_entries_none(es.drop_first());
        assert(forall|i: int|
            0 <= i < es.len() - 1 ==> (#[trigger] es.drop_first()[i]) == es[i + 1]);
        lemma_lookup_mask_none(es.drop_first(), key);
    }
}

/// Masking with a mask that marks nothing changes nothing: every leaf keeps
/// its value and every container its shape.
pub proof fn lemma_mask_none_identity(v: ValueView, m: BoolValueView)
    requires
        mask_none(m),
    ensures
        masked(v, m) == v,
    decreases val_size(v), 0int,
{
    match v {
        ValueView::Obj(es) => {
            lemma_masked_entries(es, m);
            assert forall|i: int| 0 <= i < es.len() implies #[trigger] masked_entries(es, m)[i]
                == es[i] by {
                lemma_entries_size_le(es, i);
                lemma_mask_child_none(m, es[i].0);
                lemma_mask_none_identity(es[i].1, mask_child(m, es[i].0));
                assert(masked_entries(es, m)[i] =~= es[i]);
            }
            assert(masked_entries(es, m) =~= es);
        },
        ValueView::Arr(items) => {
            let (ms, dflt) = match m {
                BoolValueView::Arr(ms) => (ms, BoolValueView::Bool(false)),
                _ => (Seq::empty(), BoolValueView::Bool(mask_verdict(m))),
            };
            lemma_masked_items(items, ms, dflt);
            if m is Arr {
                lemma_mask_items_none(ms);
            }
            assert forall|i: int| 0 <= i < items.len() implies #[trigger] masked_items(
                items,
                ms,
                dflt,
            )[i] == items[i] by {
                lemma_items_size_le(items, i);
                if i < ms.len() {
                    lemma_mask_none_identity(items[i], ms[i]);
                } else {
                    lemma_mask_none_identity(items[i], dflt);
                }
            }
            assert(masked_items(items, ms, dflt) =~= items);
        },
        _ => {},
    }
}

/// A scalar leaf whose resolved mask verdict is `true` always masks to the
/// opaque marker, whatever kind of scalar it was.
pub proof fn lemma_mask_sensitive_leaf(v: ValueView, m: BoolValueView)
    requires
        v is Str || v is Int || v is Float || v is Bool,
        mask_verdict(m),
    ensures
        masked(v, m) == ValueView::Sensitive,
{
}

// ---------------------------------------------------------------------------
// Lifecycle actions and their classification
// ---------------------------------------------------------------------------
/// One raw lifecycle action, as a plan reports it per resource.
#[derive(Debug, Clone, Copy, PartialEq, Eq, Structural)]
pub enum RawResourceChangeChangeAction {
    Create,
    Read,
    Update,
    Delete,
    NoOp,
}

/// The consolidated verdict for one resource, derived from its raw actions.
/// The declaration order is the fixed order used for sorted summaries.
#[derive(Debug, Clone, Copy, PartialEq, Eq, Structural)]
pub enum Action {
    Create,
    DeleteCreate,
    Read,
    Update,
    Delete,
    NoOp,
    Unknown,
}

/// The verdict for a single raw action.
pub open spec fn single_action(a: RawResourceChangeChangeAction) -> Action {
    match a {
        RawResourceChangeChangeAction::Create => Action::Create,
        RawResourceChangeChangeAction::Read => Action::Read,
        RawResourceChangeChangeAction::Update => Action::Update,
        RawResourceChangeChangeAction::Delete => Action::Delete,
        RawResourceChangeChangeAction::NoOp => Action::NoOp,
    }
}

/// Classification of a raw action list: the pair of a delete and a create is
/// a replacement, a single action maps to its own verdict, and anything else
/// is unknown. Only length and membership matter, never order.
pub open spec fn classify(actions: Seq<RawResourceChangeChangeAction>) -> Action {
    if actions.len() == 2 && actions.contains(RawResourceChangeChangeAction::Create)
        && actions.contains(RawResourceChangeChangeAction::Delete) {
        Action::DeleteCreate
    } else if actions.len() == 1 {
        single_action(actions[0])
    } else {
        Action::Unknown
    }
}

/// Classification reads its input as a multiset: two action lists with the
/// same members in any order classify alike.
pub proof fn lemma_classify_order_independent(
    s1: Seq<RawResourceChangeChangeAction>,
    s2: Seq<RawResourceChangeChangeAction>,
)
    requires
        s1.to_multiset() == s2.to_multiset(),
    ensures
        classify(s1) == classify(s2),
{
    s1.to_multiset_ensures();
    s2.to_multiset_ensures();
    assert(s1.len() == s1.to_multiset().len());
    assert(s2.len() == s2.to_multiset().len());
    let c = RawResourceChangeChangeAction::Create;
    let d = RawResourceChangeChangeAction::Delete;
    assert(s1.contains(c) <==> s2.contains(c)) by {
        assert(s1.contains(c) <==> s1.to_multiset().count(c) > 0);
        assert(s2.contains(c) <==> s2.to_multiset().count(c) > 0);
        assert(s1.to_multiset().count(c) == s2.to_multiset().count(c));
    }
    assert(s1.contains(d) <==> s2.contains(d)) by {
        assert(s1.contains(d) <==> s1.to_multiset().count(d) > 0);
        assert(s2.contains(d) <==> s2.to_multiset().count(d) > 0);
        assert(s1.to_multiset().count(d) == s2.to_multiset().count(d));
    }
    if s1.len() == 1 {
        assert(s1.contains(s1[0]));
        assert(s1.to_multiset().count(s1[0]) > 0);
        assert(s2.to_multiset().count(s1[0]) > 0);
        assert(s2.contains(s1[0]));
        let j = choose|j: int| 0 <= j < s2.len() && s2[j] == s1[0];
        assert(s2[0] == s1[0]);
    }
}

fn slice_contains_action(
    actions: &[RawResourceChangeChangeAction],
    target: RawResourceChangeChangeAction,
) -> (r: bool)
    ensures
        r == actions@.contains(target),
{
    let mut i: usize = 0;
    while i < actions.len()
        invariant
            i <= actions@.len(),
            forall|j: int| 0 <= j < i ==> actions@[j] != target,
        decreases actions@.len() - i,
    {
        if actions[i] == target {
            return true;
        }
        i = i + 1;
    }
    false
}

impl Action {
    /// Classifies a raw action list into one consolidated verdict.
    pub fn from_actions(actions: &[RawResourceChangeChangeAction]) -> (r: Action)
        ensures
            r == classify(actions@),
    {
        if actions.len() == 2 && slice_contains_action(actions, RawResourceChangeChangeAction::Create)
            && slice_contains_action(actions, RawResourceChangeChangeAction::Delete) {
            return Action::DeleteCreate;
        }
        if actions.len() == 1 {
            return match actions[0] {
                RawResourceChangeChangeAction::Create => Action::Create,
                RawResourceChangeChangeAction::Read => Action::Read,
                RawResourceChangeChangeAction::Update => Action::Update,
                RawResourceChangeChangeAction::Delete => Action::Delete,
                RawResourceChangeChangeAction::NoOp => Action::NoOp,
            };
        }
        Action::Unknown
    }

    /// Parses the raw action names and classifies them; the first name that
    /// is no action fails with a message naming it.
    pub fn from_strings(actions: &Vec<String>) -> (r: Result<Action, crate::types::Error>)
        ensures
            match r {
                Ok(a) => (forall|i: int|
                    0 <= i < actions@.len() ==> parse_action(#[trigger] actions@[i]@) is Some) && a
                    == classify(parsed_actions(actions@)),
                Err(e) => {
                    &&& exists|i: int|
                        {
                            &&& 0 <= i < actions@.len()
                            &&& parse_action(#[trigger] actions@[i]@) is None
                            &&& (forall|j: int|
                                0 <= j < i ==> parse_action(#[trigger] actions@[j]@) is Some)
                            &&& e.msg() == "Failed to parse action("@ + actions@[i]@ + ")"@
                        }
                    &&& e.kind() == crate::types::ErrorType::Default
                },
            },
    {
        let mut parsed: Vec<RawResourceChangeChangeAction> = Vec::new();
        let mut i: usize = 0;
        while i < actions.len()
            invariant
                i <= actions@.len(),
                parsed@.len() == i,
                parsed@ == parsed_actions(actions@.take(i as int)),
                forall|j: int| 0 <= j < i ==> parse_action(#[trigger] actions@[j]@) is Some,
            decreases actions@.len() - i,
        {
            let ghost prev = parsed@;
            match parse_action_str(actions[i].as_str()) {
                Some(a) => {
                    parsed.push(a);
                    proof {
                        assert(parsed@.drop_last() =~= prev);
                        assert(actions@.take(i as int + 1).drop_last() =~= actions@.take(i as int));
                        assert(actions@.take(i as int + 1).last() == actions@[i as int]);
                        assert(parsed@ =~= parsed_actions(actions@.take(i as int + 1)));
                    }
                },
                None => {
                    let mut m = String::from_str("Failed to parse action(");
                    m.append(actions[i].as_str());
                    m.append(")");
                    let e = crate::types::Error::default(m);
                    proof {
                        let wi = i as int;
                        assert({
                            &&& 0 <= wi < actions@.len()
                            &&& parse_action(actions@[wi]@) is None
                            &&& (forall|j: int|
                                0 <= j < wi ==> parse_action(#[trigger] actions@[j]@) is Some)
                            &&& e.msg() == "Failed to parse action("@ + actions@[wi]@ + ")"@
                        });
                    }
                    return Err(e);
                },
            }
            i = i + 1;
        }
        proof {
            assert(actions@.take(actions@.len() as int) =~= actions@);
        }
        Ok(Action::from_actions(parsed.as_slice()))
    }
}

/// The raw action a name stands for, if any.
pub open spec fn parse_action(s: Seq<char>) -> Option<RawResourceChangeChangeAction> {
    if s == "create"@ {
        Option::Some(RawResourceChangeChangeAction::Create)
    } else if s == "read"@ {
        Option::Some(RawResourceChangeChangeAction::Read)
    } else if s == "update"@ {
        Option::Some(RawResourceChangeChangeAction::Update)
    } else if s == "delete"@ {
        Option::Some(RawResourceChangeChangeAction::Delete)
    } else if s == "no-op"@ {
        Option::Some(RawResourceChangeChangeAction::NoOp)
    } else {
        Option::None
    }
}

/// The actions a list of names stands for, where every name parses.
pub open spec fn parsed_actions(ss: Seq<String>) -> Seq<RawResourceChangeChangeAction>
    decreases ss.len(),
{
    if ss.len() == 0 {
        Seq::empty()
    } else {
        parsed_actions(ss.drop_last()).push(
            match parse_action(ss.last()@) {
                Option::Some(a) => a,
                Option::None => RawResourceChangeChangeAction::Create,
            },
        )
    }
}

impl core::str::FromStr for RawResourceChangeChangeAction {
    type Err = crate::types::Error;

    fn from_str(s: &str) -> Result<RawResourceChangeChangeAction, crate::types::Error> {
        match parse_action_str(s) {
            Some(action) => Ok(action),
            None => {
                let mut m = String::new();
                m.append("Failed to parse action");
                Err(crate::types::Error::default(m))
            },
        }
    }
}

/// Parses one raw action name.
pub fn parse_action_str(s: &str) -> (r: Option<RawResourceChangeChangeAction>)
    ensures
        r == parse_action(s@),
{
    if crate::strings::str_eq(s, "create") {
        Some(RawResourceChangeChangeAction::Create)
    } else if crate::strings::str_eq(s, "read") {
        Some(RawResourceChangeChangeAction::Read)
    } else if crate::strings::str_eq(s, "update") {
        Some(RawResourceChangeChangeAction::Update)
    } else if crate::strings::str_eq(s, "delete") {
        Some(RawResourceChangeChangeAction::Delete)
    } else if crate::strings::str_eq(s, "no-op") {
        Some(RawResourceChangeChangeAction::NoOp)
    } else {
        None
    }
}

// ---------------------------------------------------------------------------
// Resource changes, plans, and the data handed to rendering
// ---------------------------------------------------------------------------
/// The raw change block of one resource: its action list, the before and
/// after snapshots, and their sensitivity masks.
#[derive(Debug, PartialEq, Eq)]
pub struct RawResourceChangeChange {
    pub actions: Vec<RawResourceChangeChangeAction>,
    pub before: Option<ValueMap>,
    pub after: Option<ValueMap>,
    pub before_sensitive: Option<BoolValue>,
    pub after_sensitive: Option<BoolValue>,
}

/// One resource of a plan, as parsed: its address, name and change block.
#[derive(Debug, PartialEq, Eq)]
pub struct RawResourceChange {
    pub address: String,
    pub name: String,
    pub change: RawResourceChangeChange,
}

/// One parsed plan: its resource changes, when the plan has any.
#[derive(Debug, PartialEq, Eq)]
pub struct RawPlan {
    pub resource_changes: Option<Vec<RawResourceChange>>,
}

/// One resource's classified view: its masked before and after snapshots and
/// the consolidated action.
#[derive(Debug, PartialEq, Eq)]
pub struct Change {
    pub address: String,
    pub name: String,
    pub action: Action,
    pub before: Option<ValueMap>,
    pub after: Option<ValueMap>,
}

/// An absent snapshot is fine; a present one must be well-formed.
pub open spec fn opt_map_wf(m: Option<ValueMap>) -> bool {
    match m {
        Option::Some(mm) => mm.wf(),
        Option::None => true,
    }
}

/// The mask to apply: an absent mask marks nothing sensitive.
pub open spec fn mask_or_default(opt: Option<BoolValue>) -> BoolValueView {
    match opt {
        Option::Some(b) => b@,
        Option::None => BoolValueView::Bool(false),
    }
}

impl RawResourceChangeChange {
    /// Both snapshots, where present, are well-formed.
    pub open spec fn wf(self) -> bool {
        opt_map_wf(self.before) && opt_map_wf(self.after)
    }
}

impl RawPlan {
    /// Every resource change's snapshots are well-formed.
    pub open spec fn wf(self) -> bool {
        match self.resource_changes {
            Option::Some(rcs) => forall|i: int|
                0 <= i < rcs@.len() ==> (#[trigger] rcs@[i]).change.wf(),
            Option::None => true,
        }
    }
}

/// How a classified change relates to the raw resource change it came from:
/// same address and name, the classified action, and each snapshot masked
/// with its own sensitivity mask.
pub open spec fn change_matches(c: Change, r: RawResourceChange) -> bool {
    &&& c.address == r.address
    &&& c.name == r.name
    &&& c.action == classify(r.change.actions@)
    &&& match r.change.before {
        Option::Some(m) => c.before matches Option::Some(mb) && mb@ == masked_entries(
            m@,
            mask_or_default(r.change.before_sensitive),
        ) && mb.wf(),
        Option::None => c.before is None,
    }
    &&& match r.change.after {
        Option::Some(m) => c.after matches Option::Some(ma) && ma@ == masked_entries(
            m@,
            mask_or_default(r.change.after_sensitive),
        ) && ma.wf(),
        Option::None => c.after is None,
    }
}

impl Change {
    /// Classifies one raw resource change and masks its snapshots.
    pub fn from_raw(raw: RawResourceChange) -> (c: Change)
        requires
            raw.change.wf(),
        ensures
            change_matches(c, raw),
    {
        let action = Action::from_actions(raw.change.actions.as_slice());
        let dflt = BoolValue::Boolean(false);
        let before_mask = match &raw.change.before_sensitive {
            Some(b) => b,
            None => &dflt,
        };
        let before = match &raw.change.before {
            Some(m) => Some(mask_sensitive_map(m, before_mask)),
            None => None,
        };
        let after_mask = match &raw.change.after_sensitive {
            Some(b) => b,
            None => &dflt,
        };
        let after = match &raw.change.after {
            Some(m) => Some(mask_sensitive_map(m, after_mask)),
            None => None,
        };
        Change { address: raw.address, name: raw.name, action, before, after }
    }
}

/// Whether some change carries the action.
pub open spec fn has_action(changes: Seq<Change>, a: Action) -> bool {
    exists|i: int| 0 <= i < changes.len() && (#[trigger] changes[i]).action == a
}

/// The position of a verdict in the fixed summary order.
pub open spec fn action_rank(a: Action) -> int {
    match a {
        Action::Create => 0,
        Action::DeleteCreate => 1,
        Action::Read => 2,
        Action::Update => 3,
        Action::Delete => 4,
        Action::NoOp => 5,
        Action::Unknown => 6,
    }
}

fn any_change_has_action(changes: &Vec<Change>, a: Action) -> (r: bool)
    ensures
        r == has_action(changes@, a),
{
    let mut i: usize = 0;
    while i < changes.len()
        invariant
            i <= changes@.len(),
            forall|j: int| 0 <= j < i ==> (#[trigger] changes@[j]).action != a,
        decreases changes@.len() - i,
    {
        if changes[i].action == a {
            return true;
        }
        i = i + 1;
    }
    false
}

/// The deduplicated actions of a list of changes, sorted in the fixed
/// summary order: an action appears exactly once when some change carries
/// it, and never otherwise.
pub fn unique_actions(changes: &Vec<Change>) -> (r: Vec<Action>)
    ensures
        forall|i: int, j: int|
            0 <= i < j < r@.len() ==> action_rank(r@[i]) < action_rank(r@[j]),
        forall|a: Action| r@.contains(a) <==> has_action(changes@, a),
{
    let candidates: Vec<Action> = vec![
        Action::Create,
        Action::DeleteCreate,
        Action::Read,
        Action::Update,
        Action::Delete,
        Action::NoOp,
        Action::Unknown,
    ];
    let ghost cands = seq![
        Action::Create,
        Action::DeleteCreate,
        Action::Read,
        Action::Update,
        Action::Delete,
        Action::NoOp,
        Action::Unknown,
    ];
    proof {
        assert(candidates@ =~= cands);
    }
    let mut r: Vec<Action> = Vec::new();
    let mut k: usize = 0;
    while k < candidates.len()
        invariant
            k <= 7,
            candidates@ == cands,
            cands.len() == 7,
            forall|t: int| 0 <= t < 7 ==> action_rank(#[trigger] cands[t]) == t,
            forall|i: int, j: int|
                0 <= i < j < r@.len() ==> action_rank(r@[i]) < action_rank(r@[j]),
            forall|x: Action| r@.contains(x) ==> action_rank(x) < k,
            forall|x: Action| r@.contains(x) ==> has_action(changes@, x),
            forall|t: int|
                0 <= t < k ==> (r@.contains(#[trigger] cands[t]) <==> has_action(
                    changes@,
                    cands[t],
                )),
        decreases candidates@.len() - k,
    {
        let cand = candidates[k];
        if any_change_has_action(changes, cand) {
            let ghost prev = r@;
            r.push(cand);
            proof {
                assert(forall|i: int| 0 <= i < prev.len() ==> r@[i] == prev[i]);
                assert(r@[r@.len() - 1] == cand);
                assert(forall|x: Action| r@.contains(x) ==> prev.contains(x) || x == cand);
                assert(r@.contains(cand));
                assert(forall|x: Action| prev.contains(x) ==> r@.contains(x));
                assert forall|i: int, j: int| 0 <= i < j < r@.len() implies action_rank(r@[i])
                    < action_rank(r@[j]) by {
                    if j == r@.len() - 1 {
                        assert(prev.contains(prev[i]));
                        assert(action_rank(r@[i]) < k);
                        assert(action_rank(cand) == k);
                    }
                }
            }
        }
        k = k + 1;
    }
    proof {
        assert(forall|a: Action| action_rank(a) < 7 && cands[action_rank(a)] == a);
    }
    r
}

/// One plan's classified view: its changes and the deduplicated sorted list
/// of their actions.
#[derive(Debug, PartialEq, Eq)]
pub struct Plan {
    pub changes: Vec<Change>,
    pub unique_actions: Vec<Action>,
}

impl Plan {
    /// Classifies every resource change of a parsed plan and summarizes the
    /// actions that occur.
    pub fn from_raw(raw: RawPlan) -> (p: Plan)
        requires
            raw.wf(),
        ensures
            match raw.resource_changes {
                Option::Some(rcs) => p.changes@.len() == rcs@.len() && forall|i: int|
                    0 <= i < rcs@.len() ==> change_matches(#[trigger] p.changes@[i], rcs@[i]),
                Option::None => p.changes@.len() == 0,
            },
            forall|i: int, j: int|
                0 <= i < j < p.unique_actions@.len() ==> action_rank(p.unique_actions@[i])
                    < action_rank(p.unique_actions@[j]),
            forall|a: Action| p.unique_actions@.contains(a) <==> has_action(p.changes@, a),
    {
        let mut changes: Vec<Change> = Vec::new();
        match raw.resource_changes {
            Some(mut rcs) => {
                let ghost orig = rcs@;
                let ghost done: int = 0;
                while rcs.len() > 0
                    invariant
                        changes@.len() + rcs@.len() == orig.len(),
                        rcs@ =~= orig.skip(changes@.len() as int),
                        forall|i: int|
                            0 <= i < orig.len() ==> (#[trigger] orig[i]).change.wf(),
                        forall|i: int|
                            0 <= i < changes@.len() ==> change_matches(
                                #[trigger] changes@[i],
                                orig[i],
                            ),
                    decreases rcs@.len(),
                {
                    let ghost n = changes@.len() as int;
                    proof {
                        assert(rcs@[0] == orig[n]);
                    }
                    let rc = rcs.remove(0);
                    let c = Change::from_raw(rc);
                    changes.push(c);
                    proof {
                        assert(rcs@ =~= orig.skip(n + 1));
                        assert(forall|i: int|
                            0 <= i < n ==> changes@[i] == changes@.drop_last()[i]);
                    }
                }
                proof {
                    assert(changes@.len() == orig.len());
                }
            },
            None => {},
        }
        let unique = unique_actions(&changes);
        Plan { changes, unique_actions: unique }
    }
}

/// Sequence of plan entries with their keys as character sequences.
pub open spec fn plan_entry_views(es: Seq<(String, Plan)>) -> Seq<(Seq<char>, Plan)>
    decreases es,
{
    if es.len() == 0 {
        Seq::empty()
    } else {
        plan_entry_views(es.drop_last()).push((es.last().0@, es.last().1))
    }
}

/// Pointwise description of `plan_entry_views`.
pub proof fn lemma_plan_entry_views(es: Seq<(String, Plan)>)
    ensures
        plan_entry_views(es).len() == es.len(),
        forall|i: int|
            0 <= i < es.len() ==> #[trigger] plan_entry_views(es)[i] == (es[i].0@, es[i].1),
    decreases es.len(),
{
    if es.len() > 0 {
        lemma_plan_entry_views(es.drop_last());
        assert(forall|i: int| 0 <= i < es.len() - 1 ==> es.drop_last()[i] == #[trigger] es[i]);
    }
}

/// All rendered data: one classified plan per source file path. A
/// well-formed value keeps its entries sorted by path, so multi-plan output
/// is deterministic.
#[derive(Debug, PartialEq, Eq)]
pub struct Data {
    pub plans: Vec<(String, Plan)>,
}

impl View for Data {
    type V = Seq<(Seq<char>, Plan)>;

    open spec fn view(&self) -> Seq<(Seq<char>, Plan)> {
        plan_entry_views(self.plans@)
    }
}

impl Data {
    /// Entries sorted strictly by path.
    pub open spec fn wf(self) -> bool {
        entries_sorted(self@)
    }

    /// The path-to-plan map this value stands for.
    pub open spec fn as_map(self) -> Map<Seq<char>, Plan> {
        entries_map(self@)
    }

    /// No plans yet.
    pub fn new() -> (r: Data)
        ensures
            r.wf(),
            r@ == Seq::<(Seq<char>, Plan)>::empty(),
            r.as_map() == Map::<Seq<char>, Plan>::empty(),
    {
        Data { plans: Vec::new() }
    }

    /// Files the plan under its source path, replacing any plan the path
    /// already had; entries stay sorted by path.
    #[verifier::rlimit(50)]
    pub fn insert(&mut self, path: String, plan: Plan)
        requires
            old(self).wf(),
        ensures
            final(self).wf(),
            final(self).as_map() == old(self).as_map().insert(path@, plan),
            forall|i: int|
                0 <= i < final(self)@.len() ==> ((exists|j: int|
                    0 <= j < old(self)@.len() && old(self)@[j] == #[trigger] final(self)@[i])
                    || final(self)@[i] == (path@, plan)),
    {
        proof {
            lemma_plan_entry_views(self.plans@);
        }
        let ghost old_entries = self.plans@;
        let ghost old_view = self@;
        let ghost k = path@;
        let mut idx: usize = 0;
        while idx < self.plans.len() && str_lt(self.plans[idx].0.as_str(), path.as_str())
            invariant
                idx <= self.plans@.len(),
                self.plans@ == old_entries,
                forall|i: int| 0 <= i < idx ==> lex_lt((#[trigger] self.plans@[i]).0@, path@),
            decreases self.plans@.len() - idx,
        {
            idx = idx + 1;
        }
        let mut replace = false;
        if idx < self.plans.len() {
            if !str_lt(path.as_str(), self.plans[idx].0.as_str()) {
                replace = true;
            }
        }
        proof {
            assert(forall|i: int|
                0 <= i < old_view.len() ==> (#[trigger] old_view[i]) == (
                old_entries[i].0@,
                old_entries[i].1,
                ));
        }
        if replace {
            let ghost pv = plan;
            proof {
                crate::strings::lemma_lex_total(old_view[idx as int].0, k);
                assert(old_view[idx as int].0 == k);
                assert forall|i: int| 0 <= i < old_view.len() && i != idx implies (
                #[trigger] old_view[i]).0 != k by {
                    if i < idx {
                        crate::strings::lemma_lex_total(old_view[i].0, k);
                    } else {
                        assert(lex_lt(old_view[idx as int].0, old_view[i].0));
                        crate::strings::lemma_lex_total(k, old_view[i].0);
                    }
                }
                lemma_entries_map_update(old_view, idx as int, k, pv);
            }
            self.plans.remove(idx);
            self.plans.insert(idx, (path, plan));
            proof {
                assert(self.plans@ =~= old_entries.update(idx as int, (path, plan)));
                lemma_plan_entry_views(self.plans@);
                assert(self@ =~= old_view.update(idx as int, (k, pv)));
                assert(forall|i: int|
                    0 <= i < self@.len() ==> (#[trigger] self@[i]).0 == old_view[i].0);
                assert(entries_sorted(self@));
                assert forall|i: int| 0 <= i < self@.len() implies ((exists|j: int|
                    0 <= j < old_view.len() && old_view[j] == #[trigger] self@[i]) || self@[i] == (
                k,
                pv,
                )) by {
                    if i != idx {
                        assert(old_view[i] == self@[i]);
                    }
                }
            }
        } else {
            let ghost pv = plan;
            proof {
                assert forall|j: int| idx <= j < old_view.len() implies lex_lt(
                    k,
                    (#[trigger] old_view[j]).0,
                ) by {
                    if j == idx {
                        crate::strings::lemma_lex_total(old_view[idx as int].0, k);
                    } else {
                        crate::strings::lemma_lex_total(old_view[idx as int].0, k);
                        crate::strings::lemma_lex_trans(k, old_view[idx as int].0, old_view[j].0);
                    }
                }
                assert forall|i: int| 0 <= i < old_view.len() implies (#[trigger] old_view[i]).0
                    != k by {
                    if i < idx {
                        crate::strings::lemma_lex_total(old_view[i].0, k);
                    } else {
                        crate::strings::lemma_lex_total(k, old_view[i].0);
                    }
                }
                lemma_entries_map_insert_at(old_view, idx as int, k, pv);
                old_view.insert_ensures(idx as int, (k, pv));
            }
            self.plans.insert(idx, (path, plan));
            proof {
                old_entries.insert_ensures(idx as int, (path, plan));
                lemma_plan_entry_views(self.plans@);
                assert(self@ =~= old_view.insert(idx as int, (k, pv)));
                assert forall|i: int, j: int| 0 <= i < j < self@.len() implies lex_lt(
                    (#[trigger] self@[i]).0,
                    (#[trigger] self@[j]).0,
                ) by {
                    if j < idx {
                    } else if i < idx && j == idx {
                        assert(self@[i].0 == old_view[i].0);
                    } else if i < idx && j > idx {
                        assert(self@[i].0 == old_view[i].0);
                        assert(self@[j].0 == old_view[j - 1].0);
                        if i == j - 1 {
                            assert(lex_lt(old_view[i].0, k));
                            crate::strings::lemma_lex_trans(old_view[i].0, k, old_view[j - 1].0);
                        }
                    } else if i == idx {
                        assert(self@[j].0 == old_view[j - 1].0);
                    } else {
                        assert(self@[i].0 == old_view[i - 1].0);
                        assert(self@[j].0 == old_view[j - 1].0);
                    }
                }
                assert forall|i: int| 0 <= i < self@.len() implies ((exists|j: int|
                    0 <= j < old_view.len() && old_view[j] == #[trigger] self@[i]) || self@[i] == (
                k,
                pv,
                )) by {
                    if i < idx {
                        assert(old_view[i] == self@[i]);
                    } else if i > idx {
                        assert(old_view[i - 1] == self@[i]);
                    }
                }
            }
        }
    }
}

} // verus!
