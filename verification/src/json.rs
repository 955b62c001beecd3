use vstd::prelude::*;

use crate::number::{bits_of_i64, bits_of_u64, number_class_spec, Number, NumberClass};
use crate::scope::{entry_insert, value_valid, Scope, ScopeModel};
use crate::value::{Array, Object, Value};

verus! {

/// A generic JSON tree. Numbers keep the three shapes a JSON document can
/// carry: an unsigned integer, a signed integer, and a double given by its
/// bit pattern.
#[derive(PartialEq, Debug)]
pub enum Json {
    Null,
    Bool(bool),
    UInt(u64),
    Int(i64),
    Float(Number),
    String(String),
    Array(Vec<Json>),
    Object(Vec<(String, Json)>),
}

/// The mathematical shape of a JSON tree: text as character sequences,
/// containers as sequences.
pub ghost enum JsonModel {
    Null,
    Bool(bool),
    UInt(u64),
    Int(i64),
    Float(u64),
    String(Seq<char>),
    Array(Seq<JsonModel>),
    Object(Seq<(Seq<char>, JsonModel)>),
}

pub open spec fn json_view(j: Json) -> JsonModel
    decreases j,
{
    match j {
        Json::Null => JsonModel::Null,
        Json::Bool(b) => JsonModel::Bool(b),
        Json::UInt(u) => JsonModel::UInt(u),
        Json::Int(i) => JsonModel::Int(i),
        Json::Float(n) => JsonModel::Float(n.bits),
        Json::String(s) => JsonModel::String(s@),
        Json::Array(items) => JsonModel::Array(json_view_seq(items@)),
        Json::Object(entries) => JsonModel::Object(json_view_entries(entries@)),
    }
}

pub open spec fn json_view_seq(items: Seq<Json>) -> Seq<JsonModel>
    decreases items,
{
    if items.len() == 0 {
        Seq::empty()
    } else {
        json_view_seq(items.drop_last()).push(json_view(items.last()))
    }
}

pub open spec fn json_view_entries(entries: Seq<(String, Json)>) -> Seq<(Seq<char>, JsonModel)>
    decreases entries,
{
    if entries.len() == 0 {
        Seq::empty()
    } else {
        json_view_entries(entries.drop_last()).push(
            (entries.last().0@, json_view(entries.last().1)),
        )
    }
}

impl View for Json {
    type V = JsonModel;

    open spec fn view(&self) -> JsonModel {
        json_view(*self)
    }
}

/// A value with no JSON shape of its own: `Undefined`, a function, or a
/// number that is not finite. As an object property it is dropped, as an
/// array element it is encoded as `null` to keep the indexes aligned, and
/// at the top it is absence.
pub open spec fn unrepresentable(v: Value) -> bool {
    ||| v is Undefined
    ||| v is Function
    ||| (v is Number && number_class_spec(v->Number_0.bits) == NumberClass::NonFinite)
}

/// The fuel that suffices to read back any value whose reference graph is
/// free of cycles: a simple path can visit each container entity at most
/// once.
pub open spec fn fuel_for(m: ScopeModel) -> nat {
    (m.arrays.len() + m.objects.len() + 1) as nat
}

/// The JSON shape of `v` read against the heap `m`, with `fuel` bounding
/// the depth of the walk: a value whose reference graph is cyclic has no
/// JSON shape and yields absence rather than an endless walk.
pub open spec fn json_of(m: ScopeModel, v: Value, fuel: nat) -> Option<JsonModel>
    decreases fuel, 0nat, 0nat,
{
    match v {
        Value::Undefined => None,
        Value::Null => Some(JsonModel::Null),
        Value::Bool(b) => Some(JsonModel::Bool(b)),
        Value::Number(n) => match number_class_spec(n.bits) {
            NumberClass::UInt(u) => Some(JsonModel::UInt(u)),
            NumberClass::Int(i) => Some(JsonModel::Int(i)),
            NumberClass::Float => Some(JsonModel::Float(n.bits)),
            NumberClass::NonFinite => None,
        },
        Value::String(s) => Some(JsonModel::String(s@)),
        Value::Array(a) => {
            if fuel == 0 || a.id >= m.arrays.len() {
                None
            } else {
                match json_of_seq(m, m.arrays[a.id as int], (fuel - 1) as nat) {
                    Some(items) => Some(JsonModel::Array(items)),
                    None => None,
                }
            }
        },
        Value::Object(o) => {
            if fuel == 0 || o.id >= m.objects.len() {
                None
            } else {
                match json_of_entries(m, m.objects[o.id as int], (fuel - 1) as nat) {
                    Some(entries) => Some(JsonModel::Object(entries)),
                    None => None,
                }
            }
        },
        Value::Function(_) => None,
    }
}

/// The JSON shapes of an array's elements: an element with no shape of
/// its own becomes `null`, and a deeper failure is a failure of the whole.
pub open spec fn json_of_seq(m: ScopeModel, elems: Seq<Value>, fuel: nat) -> Option<
    Seq<JsonModel>,
>
    decreases fuel, elems.len(), 1nat,
{
    if elems.len() == 0 {
        Some(Seq::empty())
    } else {
        match json_of_seq(m, elems.drop_last(), fuel) {
            Some(rest) => {
                let e = elems.last();
                if unrepresentable(e) {
                    Some(rest.push(JsonModel::Null))
                } else {
                    match json_of(m, e, fuel) {
                        Some(j) => Some(rest.push(j)),
                        None => None,
                    }
                }
            },
            None => None,
        }
    }
}

/// The JSON shapes of an object's entries: an entry whose value has no
/// shape of its own is dropped, and a deeper failure is a failure of the
/// whole.
pub open spec fn json_of_entries(m: ScopeModel, entries: Seq<(String, Value)>, fuel: nat) -> Option<
    Seq<(Seq<char>, JsonModel)>,
>
    decreases fuel, entries.len(), 1nat,
{
    if entries.len() == 0 {
        Some(Seq::empty())
    } else {
        match json_of_entries(m, entries.drop_last(), fuel) {
            Some(rest) => {
                let e = entries.last();
                if unrepresentable(e.1) {
                    Some(rest)
                } else {
                    match json_of(m, e.1, fuel) {
                        Some(j) => Some(rest.push((e.0@, j))),
                        None => None,
                    }
                }
            },
            None => None,
        }
    }
}


/// A failure on a prefix of the elements is a failure on the whole.
proof fn lemma_json_of_seq_prefix_none(m: ScopeModel, elems: Seq<Value>, k: int, fuel: nat)
    requires
        0 <= k <= elems.len(),
        json_of_seq(m, elems.take(k), fuel) is None,
    ensures
        json_of_seq(m, elems, fuel) is None,
    decreases elems.len() - k,
{
    if k == elems.len() {
        assert(elems.take(k) =~= elems);
    } else {
        assert(elems.take(k + 1).drop_last() =~= elems.take(k));
        lemma_json_of_seq_prefix_none(m, elems, k + 1, fuel);
    }
}

/// A failure on a prefix of the entries is a failure on the whole.
proof fn lemma_json_of_entries_prefix_none(
    m: ScopeModel,
    entries: Seq<(String, Value)>,
    k: int,
    fuel: nat,
)
    requires
        0 <= k <= entries.len(),
        json_of_entries(m, entries.take(k), fuel) is None,
    ensures
        json_of_entries(m, entries, fuel) is None,
    decreases entries.len() - k,
{
    if k == entries.len() {
        assert(entries.take(k) =~= entries);
    } else {
        assert(entries.take(k + 1).drop_last() =~= entries.take(k));
        lemma_json_of_entries_prefix_none(m, entries, k + 1, fuel);
    }
}

/// Whether a value has no JSON shape of its own.
fn is_unrepresentable(v: &Value) -> (r: bool)
    ensures
        r == unrepresentable(*v),
{
    match v {
        Value::Undefined => true,
        Value::Function(_) => true,
        Value::Number(n) => match n.classify() {
            NumberClass::NonFinite => true,
            _ => false,
        },
        _ => false,
    }
}

fn json_of_value(scope: &mut Scope, v: Value, fuel: u64) -> (r: Option<Json>)
    requires
        old(scope).wf(),
        value_valid(old(scope)@, v),
    ensures
        final(scope)@ == old(scope)@,
        r is Some <==> json_of(old(scope)@, v, fuel as nat) is Some,
        r matches Some(j) ==> Some(json_view(j)) == json_of(old(scope)@, v, fuel as nat),
    decreases fuel,
{
    match v {
        Value::Undefined => None,
        Value::Null => Some(Json::Null),
        Value::Bool(b) => Some(Json::Bool(b)),
        Value::Number(n) => match n.classify() {
            NumberClass::UInt(u) => Some(Json::UInt(u)),
            NumberClass::Int(i) => Some(Json::Int(i)),
            NumberClass::Float => Some(Json::Float(n)),
            NumberClass::NonFinite => None,
        },
        Value::String(s) => Some(Json::String(s)),
        Value::Array(a) => {
            if fuel == 0 {
                return None;
            }
            let len = scope.arr_len(a.id);
            let ghost elems = scope@.arrays[a.id as int];
            let mut items: Vec<Json> = Vec::new();
            let mut i: u32 = 0;
            while i < len
                invariant
                    scope.wf(),
                    scope@ == old(scope)@,
                    v == Value::Array(a),
                    a.id < scope@.arrays.len(),
                    elems == scope@.arrays[a.id as int],
                    len == elems.len(),
                    i <= len,
                    fuel >= 1,
                    Some(json_view_seq(items@)) == json_of_seq(
                        scope@,
                        elems.take(i as int),
                        (fuel - 1) as nat,
                    ),
                decreases len - i,
            {
                let e = scope.arr_get(a.id, i);
                let ghost items_prev = items@;
                proof {
                    assert(e == elems[i as int]);
                    assert(elems.take(i as int + 1).drop_last() =~= elems.take(i as int));
                    assert(elems.take(i as int + 1).last() == elems[i as int]);
                }
                if is_unrepresentable(&e) {
                    items.push(Json::Null);
                    proof {
                        assert(items@.drop_last() =~= items_prev);
                        assert(json_view_seq(items@) == json_view_seq(items_prev).push(
                            JsonModel::Null,
                        ));
                    }
                } else {
                    match json_of_value(scope, e, fuel - 1) {
                        Some(j) => {
                            items.push(j);
                            proof {
                                assert(items@.drop_last() =~= items_prev);
                                assert(items@.last() == j);
                                assert(json_view_seq(items@) == json_view_seq(items_prev).push(
                                    json_view(j),
                                ));
                            }
                        },
                        None => {
                            proof {
                                assert(json_of_seq(
                                    scope@,
                                    elems.take(i as int + 1),
                                    (fuel - 1) as nat,
                                ) is None);
                                lemma_json_of_seq_prefix_none(
                                    scope@,
                                    elems,
                                    i as int + 1,
                                    (fuel - 1) as nat,
                                );
                                assert(json_of_seq(scope@, elems, (fuel - 1) as nat) is None);
                                assert(json_of(scope@, Value::Array(a), fuel as nat) is None);
                            }
                            return None;
                        },
                    }
                }
                i = i + 1;
            }
            proof {
                assert(elems.take(len as int) =~= elems);
            }
            Some(Json::Array(items))
        },
        Value::Object(o) => {
            if fuel == 0 {
                return None;
            }
            let keys = scope.obj_keys(o.id);
            let ghost entries = scope@.objects[o.id as int];
            let n = keys.len();
            let mut built: Vec<(String, Json)> = Vec::new();
            let mut i: usize = 0;
            while i < n
                invariant
                    scope.wf(),
                    scope@ == old(scope)@,
                    v == Value::Object(o),
                    o.id < scope@.objects.len(),
                    entries == scope@.objects[o.id as int],
                    n == entries.len(),
                    keys@.len() == n,
                    forall|k: int| 0 <= k < n ==> keys@[k] == (#[trigger] entries[k]).0,
                    i <= n,
                    fuel >= 1,
                    Some(json_view_entries(built@)) == json_of_entries(
                        scope@,
                        entries.take(i as int),
                        (fuel - 1) as nat,
                    ),
                decreases n - i,
            {
                let value = scope.obj_get(o.id, keys[i].as_str());
                proof {
                    assert(crate::scope::has_key(entries, entries[i as int].0@)) by {
                        assert(entries[i as int].0@ == entries[i as int].0@);
                    }
                    let ki = crate::scope::key_index(entries, entries[i as int].0@);
                    assert(entries[ki].0@ == entries[i as int].0@);
                    assert(crate::scope::entries_wf(entries));
                    assert(ki == i as int);
                    assert(value == entries[i as int].1);
                    assert(entries.take(i as int + 1).drop_last() =~= entries.take(i as int));
                    assert(entries.take(i as int + 1).last() == entries[i as int]);
                }
                let ghost built_prev = built@;
                if is_unrepresentable(&value) {
                    proof {
                        assert(json_of_entries(scope@, entries.take(i as int + 1), (fuel - 1) as nat)
                            == json_of_entries(scope@, entries.take(i as int), (fuel - 1) as nat));
                    }
                } else {
                    match json_of_value(scope, value, fuel - 1) {
                        Some(j) => {
                            let key = keys[i].clone();
                            proof {
                                assert(key == entries[i as int].0);
                            }
                            built.push((key, j));
                            proof {
                                assert(built@.drop_last() =~= built_prev);
                                assert(built@.last() == (key, j));
                                assert(json_view_entries(built@) == json_view_entries(
                                    built_prev,
                                ).push((entries[i as int].0@, json_view(j))));
                            }
                        },
                        None => {
                            proof {
                                assert(json_of_entries(
                                    scope@,
                                    entries.take(i as int + 1),
                                    (fuel - 1) as nat,
                                ) is None);
                                lemma_json_of_entries_prefix_none(
                                    scope@,
                                    entries,
                                    i as int + 1,
                                    (fuel - 1) as nat,
                                );
                                assert(json_of_entries(scope@, entries, (fuel - 1) as nat) is None);
                                assert(json_of(scope@, Value::Object(o), fuel as nat) is None);
                            }
                            return None;
                        },
                    }
                }
                i = i + 1;
            }
            proof {
                assert(entries.take(n as int) =~= entries);
            }
            Some(Json::Object(built))
        },
        Value::Function(_) => None,
    }
}


/// Whether a tree fits the store's limits: every array within it stays
/// inside the 32-bit length model.
pub open spec fn json_buildable(j: Json) -> bool
    decreases j,
{
    match j {
        Json::Array(items) => items@.len() <= 0xffff_ffff && (forall|k: int|
            0 <= k < items@.len() ==> json_buildable(#[trigger] items@[k])),
        Json::Object(entries) => forall|k: int|
            0 <= k < entries@.len() ==> json_buildable((#[trigger] entries@[k]).1),
        _ => true,
    }
}

/// The heap and value that building `j` yields: children are built first,
/// left to right, and the container entity is created after them, so a
/// finished entity is never touched again.
pub open spec fn from_json_spec(m: ScopeModel, j: Json) -> (ScopeModel, Value)
    decreases j,
{
    match j {
        Json::Null => (m, Value::Null),
        Json::Bool(b) => (m, Value::Bool(b)),
        Json::UInt(u) => (m, Value::Number(Number { bits: bits_of_u64(u) })),
        Json::Int(i) => (m, Value::Number(Number { bits: bits_of_i64(i) })),
        Json::Float(n) => (m, Value::Number(n)),
        Json::String(s) => (m, Value::String(s)),
        Json::Array(items) => {
            let (m1, vals) = from_json_vals(m, items@);
            (
                ScopeModel { arrays: m1.arrays.push(vals), ..m1 },
                Value::Array(Array { id: m1.arrays.len() as usize }),
            )
        },
        Json::Object(entries) => {
            let (m1, pairs) = from_json_pairs(m, entries@);
            (
                ScopeModel { objects: m1.objects.push(insert_all(pairs)), ..m1 },
                Value::Object(Object { id: m1.objects.len() as usize }),
            )
        },
    }
}

/// The heap and values that building a list of trees yields, left to
/// right.
pub open spec fn from_json_vals(m: ScopeModel, items: Seq<Json>) -> (ScopeModel, Seq<Value>)
    decreases items,
{
    if items.len() == 0 {
        (m, Seq::empty())
    } else {
        let (m1, vals) = from_json_vals(m, items.drop_last());
        let (m2, v) = from_json_spec(m1, items.last());
        (m2, vals.push(v))
    }
}

/// The heap and key/value pairs that building an object's entries yields,
/// left to right; the pairs are raw, before duplicate keys collapse.
pub open spec fn from_json_pairs(m: ScopeModel, entries: Seq<(String, Json)>) -> (
    ScopeModel,
    Seq<(String, Value)>,
)
    decreases entries,
{
    if entries.len() == 0 {
        (m, Seq::empty())
    } else {
        let (m1, pairs) = from_json_pairs(m, entries.drop_last());
        let (m2, v) = from_json_spec(m1, entries.last().1);
        (m2, pairs.push((entries.last().0, v)))
    }
}

/// The entries an object ends up with after writing the pairs in order:
/// a later pair under an already written key replaces that entry in
/// place.
pub open spec fn insert_all(pairs: Seq<(String, Value)>) -> Seq<(String, Value)>
    decreases pairs,
{
    if pairs.len() == 0 {
        Seq::empty()
    } else {
        entry_insert(insert_all(pairs.drop_last()), pairs.last().0, pairs.last().1)
    }
}

/// Validity of a value survives heap growth: it reads only entity counts.
proof fn lemma_value_valid_monotone(m1: ScopeModel, m2: ScopeModel, v: Value)
    requires
        value_valid(m1, v),
        m2.arrays.len() >= m1.arrays.len(),
        m2.objects.len() >= m1.objects.len(),
        m2.functions.len() >= m1.functions.len(),
    ensures
        value_valid(m2, v),
{
}

fn from_json_ref(scope: &mut Scope, j: &Json) -> (r: Value)
    requires
        old(scope).wf(),
        json_buildable(*j),
    ensures
        final(scope).wf(),
        value_valid(final(scope)@, r),
        (final(scope)@, r) == from_json_spec(old(scope)@, *j),
        final(scope)@.arrays.len() >= old(scope)@.arrays.len(),
        final(scope)@.objects.len() >= old(scope)@.objects.len(),
        final(scope)@.functions == old(scope)@.functions,
        final(scope)@.active == old(scope)@.active,
    decreases *j,
{
    match j {
        Json::Null => Value::Null,
        Json::Bool(b) => Value::Bool(*b),
        Json::UInt(u) => Value::Number(Number::from_u64(*u)),
        Json::Int(i) => Value::Number(Number::from_i64(*i)),
        Json::Float(n) => Value::Number(*n),
        Json::String(s) => Value::String(s.clone()),
        Json::Array(items) => {
            let n = items.len();
            let mut vals: Vec<Value> = Vec::new();
            let mut k: usize = 0;
            proof {
                assert(items@.take(0) =~= Seq::<Json>::empty());
                assert(vals@ =~= Seq::<Value>::empty());
            }
            while k < n
                invariant
                    scope.wf(),
                    *j == Json::Array(*items),
                    forall|t: int| 0 <= t < n ==> json_buildable(#[trigger] items@[t]),
                    n == items@.len(),
                    n <= 0xffff_ffff,
                    k <= n,
                    vals@.len() == k,
                    (scope@, vals@) == from_json_vals(old(scope)@, items@.take(k as int)),
                    forall|t: int| 0 <= t < k ==> value_valid(scope@, #[trigger] vals@[t]),
                    scope@.arrays.len() >= old(scope)@.arrays.len(),
                    scope@.objects.len() >= old(scope)@.objects.len(),
                    scope@.functions == old(scope)@.functions,
                    scope@.active == old(scope)@.active,
                decreases n - k,
            {
                let ghost m_before = scope@;
                let ghost vals_before = vals@;
                proof {
                    assert(json_buildable(items@[k as int]));
                    assert(decreases_to!(*j => (*j)->Array_0));
                    assert(decreases_to!((*j)->Array_0 => (*j)->Array_0@));
                    assert(decreases_to!((*j)->Array_0@ => (*j)->Array_0@[k as int]));
                    assert(decreases_to!(*j => items@[k as int]));
                }
                let v = from_json_ref(scope, &items[k]);
                proof {
                    assert forall|t: int| 0 <= t < k implies value_valid(
                        scope@,
                        #[trigger] vals_before[t],
                    ) by {
                        lemma_value_valid_monotone(m_before, scope@, vals_before[t]);
                    }
                }
                vals.push(v);
                k = k + 1;
                proof {
                    assert(items@.take(k as int).drop_last() =~= items@.take(k as int - 1));
                    assert(items@.take(k as int).last() == items@[k as int - 1]);
                    assert(vals@ == vals_before.push(v));
                }
            }
            proof {
                assert(items@.take(n as int) =~= items@);
            }
            let ghost m1 = scope@;
            let ghost vals_full = vals@;
            let a = Array::new(scope);
            let mut k2: usize = 0;
            proof {
                assert(vals@.take(0) =~= Seq::<Value>::empty());
                assert(scope@.arrays =~~= m1.arrays.push(vals_full.take(0)));
            }
            while k2 < n
                invariant
                    scope.wf(),
                    n == vals@.len(),
                    n <= 0xffff_ffff,
                    k2 <= n,
                    vals@ == vals_full,
                    a.id == m1.arrays.len(),
                    scope@ == (ScopeModel {
                        arrays: m1.arrays.push(vals_full.take(k2 as int)),
                        ..m1
                    }),
                    forall|t: int| 0 <= t < n ==> value_valid(m1, #[trigger] vals@[t]),
                decreases n - k2,
            {
                let v = vals[k2].clone();
                proof {
                    lemma_value_valid_monotone(m1, scope@, vals@[k2 as int]);
                    assert(scope@.arrays[a.id as int] == vals_full.take(k2 as int));
                    assert(vals_full.take(k2 as int).len() < 0xffff_ffff);
                }
                a.push(scope, v);
                k2 = k2 + 1;
                proof {
                    assert(vals_full.take(k2 as int - 1).push(v) =~= vals_full.take(k2 as int));
                    assert(scope@.arrays =~~= m1.arrays.push(vals_full.take(k2 as int)));
                    assert(scope@ == (ScopeModel {
                        arrays: m1.arrays.push(vals_full.take(k2 as int)),
                        ..m1
                    }));
                }
            }
            proof {
                assert(vals_full.take(n as int) =~= vals_full);
                assert(scope@ == (ScopeModel { arrays: m1.arrays.push(vals_full), ..m1 }));
            }
            Value::Array(a)
        },
        Json::Object(entries) => {
            let n = entries.len();
            let mut pairs: Vec<(String, Value)> = Vec::new();
            let mut k: usize = 0;
            proof {
                assert(entries@.take(0) =~= Seq::<(String, Json)>::empty());
                assert(pairs@ =~= Seq::<(String, Value)>::empty());
            }
            while k < n
                invariant
                    scope.wf(),
                    *j == Json::Object(*entries),
                    forall|t: int| 0 <= t < n ==> json_buildable((#[trigger] entries@[t]).1),
                    n == entries@.len(),
                    k <= n,
                    pairs@.len() == k,
                    (scope@, pairs@) == from_json_pairs(old(scope)@, entries@.take(k as int)),
                    forall|t: int| 0 <= t < k ==> value_valid(scope@, (#[trigger] pairs@[t]).1),
                    scope@.arrays.len() >= old(scope)@.arrays.len(),
                    scope@.objects.len() >= old(scope)@.objects.len(),
                    scope@.functions == old(scope)@.functions,
                    scope@.active == old(scope)@.active,
                decreases n - k,
            {
                let ghost m_before = scope@;
                let ghost pairs_before = pairs@;
                proof {
                    assert(json_buildable((entries@[k as int]).1));
                    assert(decreases_to!(*j => (*j)->Object_0));
                    assert(decreases_to!((*j)->Object_0 => (*j)->Object_0@));
                    assert(decreases_to!((*j)->Object_0@ => (*j)->Object_0@[k as int]));
                    assert(decreases_to!((*j)->Object_0@[k as int] => (*j)->Object_0@[k as int].1));
                    assert(decreases_to!(*j => entries@[k as int].1));
                }
                let v = from_json_ref(scope, &entries[k].1);
                proof {
                    assert forall|t: int| 0 <= t < k implies value_valid(
                        scope@,
                        (#[trigger] pairs_before[t]).1,
                    ) by {
                        lemma_value_valid_monotone(m_before, scope@, pairs_before[t].1);
                    }
                }
                let key = entries[k].0.clone();
                proof {
                    assert(key == entries@[k as int].0);
                }
                pairs.push((key, v));
                k = k + 1;
                proof {
                    assert(entries@.take(k as int).drop_last() =~= entries@.take(k as int - 1));
                    assert(entries@.take(k as int).last() == entries@[k as int - 1]);
                    assert(pairs@ == pairs_before.push((key, v)));
                }
            }
            proof {
                assert(entries@.take(n as int) =~= entries@);
            }
            let ghost m1 = scope@;
            let ghost pairs_full = pairs@;
            let o = Object::new(scope);
            let mut k2: usize = 0;
            proof {
                assert(pairs@.take(0) =~= Seq::<(String, Value)>::empty());
                assert(insert_all(pairs_full.take(0)) =~= Seq::<(String, Value)>::empty());
                assert(scope@.objects =~~= m1.objects.push(insert_all(pairs_full.take(0))));
            }
            while k2 < n
                invariant
                    scope.wf(),
                    n == pairs@.len(),
                    k2 <= n,
                    pairs@ == pairs_full,
                    o.id == m1.objects.len(),
                    scope@ == (ScopeModel {
                        objects: m1.objects.push(insert_all(pairs_full.take(k2 as int))),
                        ..m1
                    }),
                    forall|t: int| 0 <= t < n ==> value_valid(m1, (#[trigger] pairs@[t]).1),
                decreases n - k2,
            {
                let key = pairs[k2].0.clone();
                let v = pairs[k2].1.clone();
                proof {
                    lemma_value_valid_monotone(m1, scope@, pairs@[k2 as int].1);
                    assert(key == pairs_full[k2 as int].0);
                    assert(v == pairs_full[k2 as int].1);
                }
                scope.obj_set_owned(o.id, key, v);
                k2 = k2 + 1;
                proof {
                    assert(pairs_full.take(k2 as int).drop_last() =~= pairs_full.take(
                        k2 as int - 1,
                    ));
                    assert(pairs_full.take(k2 as int).last() == pairs_full[k2 as int - 1]);
                    assert(entry_insert(
                        insert_all(pairs_full.take(k2 as int - 1)),
                        key,
                        v,
                    ) == insert_all(pairs_full.take(k2 as int)));
                    assert(scope@.objects =~~= m1.objects.push(
                        insert_all(pairs_full.take(k2 as int)),
                    ));
                    assert(scope@ == (ScopeModel {
                        objects: m1.objects.push(insert_all(pairs_full.take(k2 as int))),
                        ..m1
                    }));
                }
            }
            proof {
                assert(pairs_full.take(n as int) =~= pairs_full);
                assert(scope@ == (ScopeModel {
                    objects: m1.objects.push(insert_all(pairs_full)),
                    ..m1
                }));
            }
            Value::Object(o)
        },
    }
}

/// One heap extends another when it keeps every entity the other already
/// holds, unchanged, and only adds entities above them.
pub open spec fn heap_extends(m2: ScopeModel, m3: ScopeModel) -> bool {
    &&& m3.arrays.len() >= m2.arrays.len()
    &&& m3.objects.len() >= m2.objects.len()
    &&& forall|i: int| 0 <= i < m2.arrays.len() ==> m3.arrays[i] == m2.arrays[i]
    &&& forall|i: int| 0 <= i < m2.objects.len() ==> m3.objects[i] == m2.objects[i]
}

/// How many container entities a heap holds.
pub open spec fn entity_total(m: ScopeModel) -> int {
    m.arrays.len() + m.objects.len() as int
}

/// Building a tree only appends entities: the heap that comes out extends
/// the heap that went in.
proof fn lemma_build_extends(m: ScopeModel, j: Json)
    ensures
        heap_extends(m, from_json_spec(m, j).0),
    decreases j,
{
    match j {
        Json::Array(items) => {
            lemma_build_vals_extends(m, items@);
        },
        Json::Object(entries) => {
            lemma_build_pairs_extends(m, entries@);
        },
        _ => {
        },
    }
}

proof fn lemma_build_vals_extends(m: ScopeModel, items: Seq<Json>)
    ensures
        heap_extends(m, from_json_vals(m, items).0),
    decreases items,
{
    if items.len() > 0 {
        lemma_build_vals_extends(m, items.drop_last());
        lemma_build_extends(from_json_vals(m, items.drop_last()).0, items.last());
    }
}

proof fn lemma_build_pairs_extends(m: ScopeModel, entries: Seq<(String, Json)>)
    ensures
        heap_extends(m, from_json_pairs(m, entries).0),
    decreases entries,
{
    if entries.len() > 0 {
        lemma_build_pairs_extends(m, entries.drop_last());
        lemma_build_extends(from_json_pairs(m, entries.drop_last()).0, entries.last().1);
    }
}

/// Writing pairs whose keys are pairwise distinct never replaces an
/// entry: the object ends up with exactly those pairs, in order.
proof fn lemma_insert_all_distinct(pairs: Seq<(String, Value)>)
    requires
        forall|a: int, b: int|
            0 <= a < b < pairs.len() ==> (#[trigger] pairs[a]).0@ != (#[trigger] pairs[b]).0@,
    ensures
        insert_all(pairs) == pairs,
    decreases pairs,
{
    if pairs.len() > 0 {
        lemma_insert_all_distinct(pairs.drop_last());
        let rest = pairs.drop_last();
        assert(!crate::scope::has_key(rest, pairs.last().0@)) by {
            if crate::scope::has_key(rest, pairs.last().0@) {
                let w = crate::scope::key_index(rest, pairs.last().0@);
                assert(rest[w].0@ == pairs.last().0@);
                assert(pairs[w].0@ == pairs[pairs.len() - 1].0@);
            }
        }
        assert(insert_all(pairs) =~= pairs);
    }
}

/// A tree whose numbers survive the double crossing exactly and whose
/// object keys are pairwise distinct: for these, reading back what was
/// built returns the tree itself.
pub open spec fn json_faithful(j: Json) -> bool
    decreases j,
{
    match j {
        Json::UInt(u) => number_class_spec(bits_of_u64(u)) == NumberClass::UInt(u),
        Json::Int(i) => number_class_spec(bits_of_i64(i)) == NumberClass::Int(i),
        Json::Float(n) => number_class_spec(n.bits) == NumberClass::Float,
        Json::Array(items) => forall|k: int|
            0 <= k < items@.len() ==> json_faithful(#[trigger] items@[k]),
        Json::Object(entries) => {
            &&& forall|a: int, b: int|
                0 <= a < b < entries@.len() ==> (#[trigger] entries@[a]).0@ != (
                #[trigger] entries@[b]).0@
            &&& forall|k: int| 0 <= k < entries@.len() ==> json_faithful((#[trigger] entries@[k]).1)
        },
        _ => true,
    }
}

proof fn lemma_round_trip_rec(m: ScopeModel, j: Json, m3: ScopeModel, fuel: nat)
    requires
        json_faithful(j),
        heap_extends(from_json_spec(m, j).0, m3),
        fuel >= entity_total(from_json_spec(m, j).0) - entity_total(m) + 1,
        from_json_spec(m, j).0.arrays.len() <= usize::MAX,
        from_json_spec(m, j).0.objects.len() <= usize::MAX,
    ensures
        !unrepresentable(from_json_spec(m, j).1),
        json_of(m3, from_json_spec(m, j).1, fuel) == Some(json_view(j)),
    decreases j,
{
    let (m2, v) = from_json_spec(m, j);
    match j {
        Json::Array(items) => {
            let (m1, vals) = from_json_vals(m, items@);
            lemma_build_vals_extends(m, items@);
            let id = m1.arrays.len() as int;
            assert(m2.arrays.len() == m1.arrays.len() + 1);
            assert(id <= usize::MAX);
            assert(v == Value::Array(Array { id: id as usize }));
            assert((id as usize) as int == id);
            assert(m2.arrays[id] == vals);
            assert(m3.arrays[id] == vals);
            assert(fuel >= 2);
            lemma_round_trip_vals(m, items@, m3, (fuel - 1) as nat);
            assert(json_of_seq(m3, m3.arrays[id], (fuel - 1) as nat) == Some(
                json_view_seq(items@),
            ));
            assert(json_of(m3, v, fuel) == Some(JsonModel::Array(json_view_seq(items@))));
        },
        Json::Object(entries) => {
            let (m1, pairs) = from_json_pairs(m, entries@);
            lemma_build_pairs_extends(m, entries@);
            lemma_round_trip_pairs(m, entries@, m3, (fuel - 1) as nat);
            assert(forall|a: int, b: int|
                0 <= a < b < pairs.len() ==> (#[trigger] pairs[a]).0@ != (
                #[trigger] pairs[b]).0@);
            lemma_insert_all_distinct(pairs);
            let id = m1.objects.len() as int;
            assert(m2.objects.len() == m1.objects.len() + 1);
            assert(id <= usize::MAX);
            assert(v == Value::Object(Object { id: id as usize }));
            assert((id as usize) as int == id);
            assert(m2.objects[id] == pairs);
            assert(m3.objects[id] == pairs);
            assert(fuel >= 2);
            assert(json_of_entries(m3, m3.objects[id], (fuel - 1) as nat) == Some(
                json_view_entries(entries@),
            ));
            assert(json_of(m3, v, fuel) == Some(JsonModel::Object(json_view_entries(entries@))));
        },
        _ => {
        },
    }
}

proof fn lemma_round_trip_vals(m: ScopeModel, items: Seq<Json>, m3: ScopeModel, fuel: nat)
    requires
        forall|k: int| 0 <= k < items.len() ==> json_faithful(#[trigger] items[k]),
        heap_extends(from_json_vals(m, items).0, m3),
        fuel >= entity_total(from_json_vals(m, items).0) - entity_total(m) + 1,
        from_json_vals(m, items).0.arrays.len() <= usize::MAX,
        from_json_vals(m, items).0.objects.len() <= usize::MAX,
    ensures
        from_json_vals(m, items).1.len() == items.len(),
        forall|k: int|
            0 <= k < items.len() ==> !unrepresentable(#[trigger] from_json_vals(m, items).1[k]),
        json_of_seq(m3, from_json_vals(m, items).1, fuel) == Some(json_view_seq(items)),
    decreases items,
{
    if items.len() == 0 {
        assert(from_json_vals(m, items).1 =~= Seq::<Value>::empty());
    } else {
        let rest = items.drop_last();
        let (m1, vals1) = from_json_vals(m, rest);
        let (m2, v) = from_json_spec(m1, items.last());
        lemma_build_vals_extends(m, rest);
        lemma_build_extends(m1, items.last());
        assert(heap_extends(m1, m3));
        lemma_round_trip_vals(m, rest, m3, fuel);
        lemma_round_trip_rec(m1, items.last(), m3, fuel);
        let vals = from_json_vals(m, items).1;
        assert(vals == vals1.push(v));
        assert(vals.drop_last() =~= vals1);
        assert(vals.last() == v);
        assert(json_of_seq(m3, vals, fuel) == Some(json_view_seq(rest).push(json_view(
            items.last(),
        ))));
    }
}

proof fn lemma_round_trip_pairs(m: ScopeModel, entries: Seq<(String, Json)>, m3: ScopeModel, fuel: nat)
    requires
        forall|k: int| 0 <= k < entries.len() ==> json_faithful((#[trigger] entries[k]).1),
        heap_extends(from_json_pairs(m, entries).0, m3),
        fuel >= entity_total(from_json_pairs(m, entries).0) - entity_total(m) + 1,
        from_json_pairs(m, entries).0.arrays.len() <= usize::MAX,
        from_json_pairs(m, entries).0.objects.len() <= usize::MAX,
    ensures
        from_json_pairs(m, entries).1.len() == entries.len(),
        forall|k: int|
            0 <= k < entries.len() ==> (#[trigger] from_json_pairs(m, entries).1[k]).0
                == entries[k].0,
        forall|k: int|
            0 <= k < entries.len() ==> !unrepresentable(
                (#[trigger] from_json_pairs(m, entries).1[k]).1,
            ),
        json_of_entries(m3, from_json_pairs(m, entries).1, fuel) == Some(
            json_view_entries(entries),
        ),
    decreases entries,
{
    if entries.len() == 0 {
        assert(from_json_pairs(m, entries).1 =~= Seq::<(String, Value)>::empty());
    } else {
        let rest = entries.drop_last();
        let (m1, pairs1) = from_json_pairs(m, rest);
        let (m2, v) = from_json_spec(m1, entries.last().1);
        lemma_build_pairs_extends(m, rest);
        lemma_build_extends(m1, entries.last().1);
        assert(heap_extends(m1, m3));
        lemma_round_trip_pairs(m, rest, m3, fuel);
        lemma_round_trip_rec(m1, entries.last().1, m3, fuel);
        let pairs = from_json_pairs(m, entries).1;
        assert(pairs == pairs1.push((entries.last().0, v)));
        assert(pairs.drop_last() =~= pairs1);
        assert(pairs.last() == (entries.last().0, v));
        assert(json_of_entries(m3, pairs, fuel) == Some(json_view_entries(rest).push(
            (entries.last().0@, json_view(entries.last().1)),
        )));
    }
}

/// Law: the JSON round trip. Building a faithful tree into the heap and
/// reading it back yields the very same tree — integers stay integers,
/// doubles stay doubles, array order and object key order are kept.
pub proof fn lemma_json_round_trip(m: ScopeModel, j: Json)
    requires
        json_faithful(j),
        from_json_spec(m, j).0.arrays.len() <= usize::MAX,
        from_json_spec(m, j).0.objects.len() <= usize::MAX,
    ensures
        json_of(
            from_json_spec(m, j).0,
            from_json_spec(m, j).1,
            fuel_for(from_json_spec(m, j).0),
        ) == Some(json_view(j)),
{
    let (m2, v) = from_json_spec(m, j);
    lemma_build_extends(m, j);
    assert(heap_extends(m2, m2));
    lemma_round_trip_rec(m, j, m2, fuel_for(m2));
}

impl Value {
    /// The JSON shape of this value, read through `scope`: total for every
    /// value except `Undefined`, functions, non-finite numbers, and values
    /// whose reference graph is cyclic, which have none. A number that
    /// equals an unsigned or signed 64-bit integer exactly crosses as that
    /// integer, never as a lossy double.
    pub fn into_json(self, scope: &mut Scope) -> (r: Option<Json>)
        requires
            old(scope).wf(),
            value_valid(old(scope)@, self),
            old(scope)@.arrays.len() + old(scope)@.objects.len() + 1 <= u64::MAX,
        ensures
            final(scope)@ == old(scope)@,
            r is Some <==> json_of(old(scope)@, self, fuel_for(old(scope)@)) is Some,
            r matches Some(j) ==> Some(json_view(j)) == json_of(
                old(scope)@,
                self,
                fuel_for(old(scope)@),
            ),
    {
        let fuel = scope.entity_count() + 1;
        json_of_value(scope, self, fuel)
    }

    /// Builds the value a JSON tree denotes, total over every tree: the
    /// tree's arrays and objects become fresh heap entities, and a JSON
    /// integer becomes the double nearest to it.
    pub fn from_json(scope: &mut Scope, json: Json) -> (r: Value)
        requires
            old(scope).wf(),
            json_buildable(json),
        ensures
            final(scope).wf(),
            value_valid(final(scope)@, r),
            (final(scope)@, r) == from_json_spec(old(scope)@, json),
    {
        from_json_ref(scope, &json)
    }
}

} // verus!
