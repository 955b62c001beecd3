use vstd::prelude::*;

use crate::scope::{entries_wf, entry_insert, has_key, key_index, lookup, value_valid, Scope,
    ScopeModel};
use crate::value::{Object, Value};

verus! {

impl Object {
    /// Allocates a fresh, empty object entity and returns a handle to it.
    pub fn new(scope: &mut Scope) -> (r: Object)
        requires
            old(scope).wf(),
        ensures
            final(scope).wf(),
            r.id == old(scope)@.objects.len(),
            final(scope)@ == (ScopeModel {
                objects: old(scope)@.objects.push(Seq::empty()),
                ..old(scope)@
            }),
            value_valid(final(scope)@, Value::Object(r)),
    {
        let id = scope.obj_new();
        Object { id }
    }

    /// Reads the property `name`. A missing key yields `Undefined` — not
    /// an error, and not `Null`.
    pub fn get(&self, scope: &mut Scope, name: &str) -> (r: Value)
        requires
            old(scope).wf(),
            self.id < old(scope)@.objects.len(),
        ensures
            final(scope)@ == old(scope)@,
            r == lookup(old(scope)@.objects[self.id as int], name@),
            value_valid(old(scope)@, r),
    {
        scope.obj_get(self.id, name)
    }

    /// Writes `value` under `name`: an existing entry is replaced in place,
    /// a new one is appended. The write is visible through every handle
    /// that aliases this entity.
    pub fn set(&self, scope: &mut Scope, name: &str, value: Value)
        requires
            old(scope).wf(),
            self.id < old(scope)@.objects.len(),
            value_valid(old(scope)@, value),
        ensures
            final(scope).wf(),
            exists|k: String|
                k@ == name@ && final(scope)@ == (ScopeModel {
                    objects: old(scope)@.objects.update(
                        self.id as int,
                        #[trigger] entry_insert(old(scope)@.objects[self.id as int], k, value),
                    ),
                    ..old(scope)@
                }),
    {
        scope.obj_set(self.id, name, value)
    }

    /// The object's own enumerable string keys, in insertion order.
    pub fn keys(&self, scope: &mut Scope) -> (r: Vec<String>)
        requires
            old(scope).wf(),
            self.id < old(scope)@.objects.len(),
        ensures
            final(scope)@ == old(scope)@,
            r@.len() == old(scope)@.objects[self.id as int].len(),
            forall|k: int|
                0 <= k < r@.len() ==> r@[k] == (#[trigger] old(scope)@.objects[self.id as int][k]).0,
    {
        scope.obj_keys(self.id)
    }
}

/// Law: writing under a key and then reading the same key yields the
/// written value.
pub proof fn lemma_lookup_insert(entries: Seq<(String, Value)>, key: String, value: Value)
    requires
        entries_wf(entries),
    ensures
        lookup(entry_insert(entries, key, value), key@) == value,
{
    let after = entry_insert(entries, key, value);
    if has_key(entries, key@) {
        let i = key_index(entries, key@);
        assert(after[i].0@ == key@);
        assert(has_key(after, key@));
        let j = key_index(after, key@);
        assert(after[j].0@ == key@);
        if i != j {
            assert(after[j].0 == entries[j].0);
            assert(entries[i].0@ == entries[j].0@);
        }
    } else {
        let n = entries.len() as int;
        assert(after[n].0@ == key@);
        assert(has_key(after, key@));
        let j = key_index(after, key@);
        assert(after[j].0@ == key@);
        if j != n {
            assert(after[j] == entries[j]);
            assert(has_key(entries, key@));
        }
    }
}

/// Law: writing under a key leaves every other key's value unchanged.
pub proof fn lemma_lookup_insert_other(
    entries: Seq<(String, Value)>,
    key: String,
    value: Value,
    other: Seq<char>,
)
    requires
        entries_wf(entries),
        other != key@,
    ensures
        lookup(entry_insert(entries, key, value), other) == lookup(entries, other),
{
    let after = entry_insert(entries, key, value);
    assert(after.len() == entries.len() || after.len() == entries.len() + 1);
    assert forall|j: int| 0 <= j < entries.len() implies (#[trigger] after[j]).0 == entries[j].0 by {
        if has_key(entries, key@) {
            let i = key_index(entries, key@);
            if j != i {
                assert(after[j] == entries[j]);
            }
        } else {
            assert(after[j] == entries[j]);
        }
    }
    if has_key(entries, other) {
        let i = key_index(entries, other);
        assert(after[i].0@ == other);
        assert(has_key(after, other));
        let j = key_index(after, other);
        assert(after[j].0@ == other);
        assert(j < entries.len()) by {
            if j == entries.len() && after.len() == entries.len() + 1 {
                assert(after[j].0@ == key@);
            }
        }
        assert(entries[j].0@ == other);
        assert(j == i) by {
            if j != i {
                assert(entries[i].0@ == entries[j].0@);
            }
        }
        assert(after[i].1 == lookup(entries, other)) by {
            if has_key(entries, key@) {
                let ki = key_index(entries, key@);
                assert(ki != i) by {
                    if ki == i {
                        assert(entries[i].0@ == key@);
                    }
                }
                assert(after[i] == entries[i]);
            } else {
                assert(after[i] == entries[i]);
            }
        }
    } else {
        assert(!has_key(after, other)) by {
            if has_key(after, other) {
                let j = key_index(after, other);
                assert(after[j].0@ == other);
                if j < entries.len() {
                    assert(entries[j].0@ == other);
                    assert(has_key(entries, other));
                } else {
                    assert(after[j].0@ == key@);
                }
            }
        }
    }
}

/// Law: after a write under `name`, the object's key sequence holds a key
/// equal to `name`, and — the keys staying pairwise distinct — holds it
/// exactly once.
pub proof fn lemma_set_then_keys_once(entries: Seq<(String, Value)>, key: String, value: Value)
    requires
        entries_wf(entries),
    ensures
        has_key(entry_insert(entries, key, value), key@),
        entries_wf(entry_insert(entries, key, value)),
{
    let after = entry_insert(entries, key, value);
    if has_key(entries, key@) {
        let i = key_index(entries, key@);
        assert(after[i].0@ == key@);
        assert forall|a: int, b: int| 0 <= a < b < after.len() implies (#[trigger] after[a]).0@
            != (#[trigger] after[b]).0@ by {
            assert(after[a].0 == entries[a].0);
            assert(after[b].0 == entries[b].0);
        }
    } else {
        let n = entries.len() as int;
        assert(after[n].0@ == key@);
        assert forall|a: int, b: int| 0 <= a < b < after.len() implies (#[trigger] after[a]).0@
            != (#[trigger] after[b]).0@ by {
            assert(after[a] == entries[a]);
            if b < n {
                assert(after[b] == entries[b]);
            } else {
                assert(after[b].0@ == key@);
                assert(entries[a].0@ != key@) by {
                    if entries[a].0@ == key@ {
                        assert(has_key(entries, key@));
                    }
                }
            }
        }
    }
}

/// Law: handles alias entities, not copies. Two object handles with the
/// same identity observe each other's writes: a value written through one
/// is read back through the other.
pub proof fn lemma_handle_aliasing(
    m: ScopeModel,
    first: Object,
    second: Object,
    key: String,
    value: Value,
)
    requires
        first.id == second.id,
        first.id < m.objects.len(),
        entries_wf(m.objects[first.id as int]),
    ensures
        ({
            let written = ScopeModel {
                objects: m.objects.update(
                    first.id as int,
                    entry_insert(m.objects[first.id as int], key, value),
                ),
                ..m
            };
            lookup(written.objects[second.id as int], key@) == value
        }),
{
    lemma_lookup_insert(m.objects[first.id as int], key, value);
}

} // verus!
