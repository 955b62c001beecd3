use vstd::prelude::*;

use crate::value::Value;

verus! {

/// Mathematical model of a [`Scope`]: the heap of script entities it
/// guards, and the state of its engine context.
///
/// Entities are never torn down while the scope lives, so an entity's
/// position in its sequence is a stable identity; handles carry exactly
/// that position.
pub ghost struct ScopeModel {
    /// The element sequences of the array entities, in creation order.
    pub arrays: Seq<Seq<Value>>,
    /// The entries of the object entities, in creation order. Within one
    /// entity the entries keep insertion order and have pairwise distinct
    /// keys.
    pub objects: Seq<Seq<(String, Value)>>,
    /// The registry token of each installed function wrapper, in creation
    /// order.
    pub functions: Seq<u64>,
    /// Whether the engine context is currently entered. An owning scope is
    /// suspended between operations; each operation re-enters the context
    /// and is bound to exit it again on every path.
    pub active: bool,
}

/// A value is valid for a scope when each reference variant points at an
/// entity that exists in that scope's heap.
pub open spec fn value_valid(m: ScopeModel, v: Value) -> bool {
    match v {
        Value::Array(a) => a.id < m.arrays.len(),
        Value::Object(o) => o.id < m.objects.len(),
        Value::Function(f) => f.id < m.functions.len(),
        _ => true,
    }
}

/// Object entries have pairwise distinct keys.
pub open spec fn entries_wf(entries: Seq<(String, Value)>) -> bool {
    forall|i: int, j: int|
        0 <= i < j < entries.len() ==> (#[trigger] entries[i]).0@ != (#[trigger] entries[j]).0@
}

/// Whether an object holds an own entry under `name`.
pub open spec fn has_key(entries: Seq<(String, Value)>, name: Seq<char>) -> bool {
    exists|i: int| 0 <= i < entries.len() && (#[trigger] entries[i]).0@ == name
}

/// The position of the entry under `name` (meaningful when `has_key`
/// holds; with distinct keys it is the only such position).
pub open spec fn key_index(entries: Seq<(String, Value)>, name: Seq<char>) -> int {
    choose|i: int| 0 <= i < entries.len() && (#[trigger] entries[i]).0@ == name
}

/// The value an object read yields: the entry under `name`, and
/// `Undefined` — not an error, and not `Null` — when there is none.
pub open spec fn lookup(entries: Seq<(String, Value)>, name: Seq<char>) -> Value {
    if has_key(entries, name) {
        entries[key_index(entries, name)].1
    } else {
        Value::Undefined
    }
}

/// The entries after writing `value` under `key`: an existing entry is
/// replaced in place (keeping its position and its key), a new one is
/// appended.
pub open spec fn entry_insert(
    entries: Seq<(String, Value)>,
    key: String,
    value: Value,
) -> Seq<(String, Value)> {
    if has_key(entries, key@) {
        let i = key_index(entries, key@);
        entries.update(i, (entries[i].0, value))
    } else {
        entries.push((key, value))
    }
}

/// The value an array read yields: the element, or `Undefined` out of
/// range.
pub open spec fn elem_at(elems: Seq<Value>, index: int) -> Value {
    if 0 <= index < elems.len() {
        elems[index]
    } else {
        Value::Undefined
    }
}

/// A run of `count` `Undefined` holes.
pub open spec fn undefined_run(count: nat) -> Seq<Value> {
    Seq::new(count, |_k: int| Value::Undefined)
}

/// The elements after writing `value` at `index`: a write past the end
/// extends the array with `Undefined` holes, as a script write would.
pub open spec fn elem_store(elems: Seq<Value>, index: int, value: Value) -> Seq<Value> {
    if index < elems.len() {
        elems.update(index, value)
    } else {
        elems + undefined_run((index - elems.len()) as nat) + seq![value]
    }
}

/// Whether a wrapper for `token` is already installed.
pub open spec fn has_token(tokens: Seq<u64>, token: u64) -> bool {
    exists|i: int| 0 <= i < tokens.len() && tokens[i] == token
}

/// The position of the wrapper for `token` (meaningful when `has_token`
/// holds; tokens are pairwise distinct).
pub open spec fn token_index(tokens: Seq<u64>, token: u64) -> int {
    choose|i: int| 0 <= i < tokens.len() && tokens[i] == token
}

/// Well-formedness of a scope's heap: object keys are distinct, every
/// stored value points at an existing entity, array lengths stay within
/// the 32-bit length model, and function wrappers are installed at most
/// once per token.
pub open spec fn scope_wf(m: ScopeModel) -> bool {
    &&& forall|i: int| 0 <= i < m.objects.len() ==> entries_wf(#[trigger] m.objects[i])
    &&& forall|i: int, j: int|
        0 <= i < m.objects.len() && 0 <= j < m.objects[i].len() ==> value_valid(
            m,
            (#[trigger] m.objects[i][j]).1,
        )
    &&& forall|i: int, j: int|
        0 <= i < m.arrays.len() && 0 <= j < m.arrays[i].len() ==> value_valid(
            m,
            #[trigger] m.arrays[i][j],
        )
    &&& forall|i: int| 0 <= i < m.arrays.len() ==> (#[trigger] m.arrays[i]).len() <= 0xffff_ffff
    &&& forall|i: int, j: int|
        0 <= i < j < m.functions.len() ==> m.functions[i] != m.functions[j]
}

/// The authority token for one engine instance's heap: every operation
/// that reads or writes script state goes through a `&mut Scope`.
///
/// The in-process backend keeps the heap inside the scope itself, so the
/// scope is also the owner of every entity its handles point at.
pub struct Scope {
    arrays: Vec<Vec<Value>>,
    objects: Vec<Vec<(String, Value)>>,
    functions: Vec<u64>,
    active: bool,
}

impl View for Scope {
    type V = ScopeModel;

    closed spec fn view(&self) -> ScopeModel {
        ScopeModel {
            arrays: self.arrays@.map_values(|a: Vec<Value>| a@),
            objects: self.objects@.map_values(|o: Vec<(String, Value)>| o@),
            functions: self.functions@,
            active: self.active,
        }
    }
}

impl Scope {
    pub open spec fn wf(&self) -> bool {
        scope_wf(self@)
    }

    /// A fresh, suspended scope over an empty heap.
    pub fn new() -> (r: Scope)
        ensures
            r.wf(),
            r@ == (ScopeModel {
                arrays: Seq::<Seq<Value>>::empty(),
                objects: Seq::<Seq<(String, Value)>>::empty(),
                functions: Seq::<u64>::empty(),
                active: false,
            }),
    {
        let r = Scope { arrays: Vec::new(), objects: Vec::new(), functions: Vec::new(), active: false };
        proof {
            assert(r@.arrays =~= Seq::<Seq<Value>>::empty());
            assert(r@.objects =~= Seq::<Seq<(String, Value)>>::empty());
        }
        r
    }

    /// Enters the engine context, or reuses it when a call is already in
    /// progress — a nested acquisition never enters a second time. The
    /// returned flag says whether this acquisition was the top-level one;
    /// it is owed back to [`Scope::release`].
    pub fn acquire(&mut self) -> (top: bool)
        ensures
            top == !old(self)@.active,
            final(self)@ == (ScopeModel { active: true, ..old(self)@ }),
    {
        if self.active {
            false
        } else {
            self.active = true;
            true
        }
    }

    /// Exits the engine context if `top` says this caller entered it;
    /// a delegated acquisition leaves the context to its real owner.
    pub fn release(&mut self, top: bool)
        ensures
            final(self)@ == (ScopeModel { active: old(self)@.active && !top, ..old(self)@ }),
    {
        if top {
            self.active = false;
        }
    }

    /// Whether the engine context is currently entered.
    pub fn is_active(&self) -> (r: bool)
        ensures
            r == self@.active,
    {
        self.active
    }

    /// Allocates a fresh, empty object entity.
    pub(crate) fn obj_new(&mut self) -> (id: usize)
        requires
            old(self).wf(),
        ensures
            final(self).wf(),
            id == old(self)@.objects.len(),
            final(self)@ == (ScopeModel {
                objects: old(self)@.objects.push(Seq::empty()),
                ..old(self)@
            }),
    {
        let top = self.acquire();
        let id = self.objects.len();
        self.objects.push(Vec::new());
        self.release(top);
        proof {
            assert(final(self)@.objects =~= old(self)@.objects.push(Seq::empty()));
            assert(final(self)@ == (ScopeModel {
                objects: old(self)@.objects.push(Seq::empty()),
                ..old(self)@
            }));
            assert forall|i: int, j: int|
                0 <= i < final(self)@.objects.len() && 0 <= j < final(self)@.objects[i].len()
                implies value_valid(final(self)@, (final(self)@.objects[i][j]).1) by {
                assert(final(self)@.objects[i] == old(self)@.objects[i]);
            }
        }
        id
    }

    /// Reads the entry under `name` of object `id`; a missing key yields
    /// `Undefined`.
    pub(crate) fn obj_get(&mut self, id: usize, name: &str) -> (r: Value)
        requires
            old(self).wf(),
            id < old(self)@.objects.len(),
        ensures
            final(self)@ == old(self)@,
            r == lookup(old(self)@.objects[id as int], name@),
            value_valid(old(self)@, r),
    {
        let top = self.acquire();
        let name_owned: String = name.to_owned();
        let ghost entries = self@.objects[id as int];
        let n = self.objects[id].len();
        let mut i: usize = 0;
        let mut idx: Option<usize> = None;
        while i < n && idx.is_none()
            invariant
                self@ == (ScopeModel { active: true, ..old(self)@ }),
                old(self).wf(),
                id < self@.objects.len(),
                entries == self@.objects[id as int],
                n == entries.len(),
                i <= n,
                name_owned@ == name@,
                idx is None ==> forall|k: int| 0 <= k < i ==> (#[trigger] entries[k]).0@ != name@,
                idx matches Some(j) ==> j < n && entries[j as int].0@ == name@,
            decreases n - i,
        {
            if self.objects[id][i].0 == name_owned {
                idx = Some(i);
            }
            i = i + 1;
        }
        let r = match idx {
            Some(j) => {
                proof {
                    assert(has_key(entries, name@)) by {
                        assert(entries[j as int].0@ == name@);
                    }
                    let ki = key_index(entries, name@);
                    assert(entries[ki].0@ == name@);
                    assert(entries_wf(entries));
                    assert(ki == j);
                }
                self.objects[id][j].1.clone()
            },
            None => {
                proof {
                    assert(!has_key(entries, name@));
                }
                Value::Undefined
            },
        };
        self.release(top);
        proof {
            assert(final(self)@ == old(self)@);
        }
        r
    }

    /// Writes `value` under `name` into object `id`, replacing an existing
    /// entry in place or appending a new one.
    pub(crate) fn obj_set(&mut self, id: usize, name: &str, value: Value)
        requires
            old(self).wf(),
            id < old(self)@.objects.len(),
            value_valid(old(self)@, value),
        ensures
            final(self).wf(),
            exists|k: String|
                k@ == name@ && final(self)@ == (ScopeModel {
                    objects: old(self)@.objects.update(
                        id as int,
                        #[trigger] entry_insert(old(self)@.objects[id as int], k, value),
                    ),
                    ..old(self)@
                }),
    {
        let name_owned: String = name.to_owned();
        self.obj_set_owned(id, name_owned, value);
    }

    /// Writes `value` under the owned key `name` into object `id`; the
    /// stored key is `name` itself when the entry is new, and the already
    /// stored one when it is replaced.
    pub(crate) fn obj_set_owned(&mut self, id: usize, name: String, value: Value)
        requires
            old(self).wf(),
            id < old(self)@.objects.len(),
            value_valid(old(self)@, value),
        ensures
            final(self).wf(),
            final(self)@ == (ScopeModel {
                objects: old(self)@.objects.update(
                    id as int,
                    entry_insert(old(self)@.objects[id as int], name, value),
                ),
                ..old(self)@
            }),
    {
        let top = self.acquire();
        let name_owned: String = name;
        let ghost entries = self@.objects[id as int];
        let n = self.objects[id].len();
        let mut i: usize = 0;
        let mut idx: Option<usize> = None;
        while i < n && idx.is_none()
            invariant
                self@ == (ScopeModel { active: true, ..old(self)@ }),
                old(self).wf(),
                id < self@.objects.len(),
                entries == self@.objects[id as int],
                n == entries.len(),
                i <= n,
                name_owned@ == name@,
                idx is None ==> forall|k: int| 0 <= k < i ==> (#[trigger] entries[k]).0@ != name@,
                idx matches Some(j) ==> j < n && entries[j as int].0@ == name@,
            decreases n - i,
        {
            if self.objects[id][i].0 == name_owned {
                idx = Some(i);
            }
            i = i + 1;
        }
        match idx {
            Some(j) => {
                proof {
                    assert(has_key(entries, name@)) by {
                        assert(entries[j as int].0@ == name@);
                    }
                    let ki = key_index(entries, name@);
                    assert(entries[ki].0@ == name@);
                    assert(entries_wf(entries));
                    assert(ki == j);
                }
                self.objects[id][j].1 = value;
                proof {
                    assert(self@.objects =~= old(self)@.objects.update(
                        id as int,
                        entry_insert(entries, name_owned, value),
                    ));
                }
            },
            None => {
                proof {
                    assert(!has_key(entries, name@));
                }
                self.objects[id].push((name_owned, value));
                proof {
                    assert(self@.objects =~= old(self)@.objects.update(
                        id as int,
                        entry_insert(entries, name_owned, value),
                    ));
                }
            },
        }
        self.release(top);
        proof {
            let k = name_owned;
            let m2 = final(self)@;
            assert(m2 == (ScopeModel {
                objects: old(self)@.objects.update(
                    id as int,
                    entry_insert(old(self)@.objects[id as int], k, value),
                ),
                ..old(self)@
            }));
            assert(k == name);
            let new_entries = entry_insert(entries, k, value);
            assert(entries_wf(new_entries)) by {
                if has_key(entries, k@) {
                    let ki = key_index(entries, k@);
                    assert(forall|a: int|
                        0 <= a < new_entries.len() ==> (#[trigger] new_entries[a]).0
                            == entries[a].0);
                } else {
                    assert(forall|a: int|
                        0 <= a < entries.len() ==> (#[trigger] new_entries[a]) == entries[a]);
                    assert(new_entries[entries.len() as int].0@ == name@);
                }
            }
            assert forall|oi: int, oj: int|
                0 <= oi < m2.objects.len() && 0 <= oj < m2.objects[oi].len() implies value_valid(
                m2,
                (#[trigger] m2.objects[oi][oj]).1,
            ) by {
                if oi != id as int {
                    assert(m2.objects[oi] == old(self)@.objects[oi]);
                    assert(value_valid(old(self)@, m2.objects[oi][oj].1));
                } else {
                    assert(m2.objects[oi] == new_entries);
                    if 0 <= oj < entries.len() && new_entries[oj].1 != value {
                        assert(new_entries[oj].1 == entries[oj].1);
                    }
                }
            }
            assert forall|oi: int| 0 <= oi < m2.objects.len() implies entries_wf(
                #[trigger] m2.objects[oi],
            ) by {
                if oi != id as int {
                    assert(m2.objects[oi] == old(self)@.objects[oi]);
                }
            }
        }
    }

    /// The own keys of object `id`, in insertion order.
    pub(crate) fn obj_keys(&mut self, id: usize) -> (r: Vec<String>)
        requires
            old(self).wf(),
            id < old(self)@.objects.len(),
        ensures
            final(self)@ == old(self)@,
            r@.len() == old(self)@.objects[id as int].len(),
            forall|k: int|
                0 <= k < r@.len() ==> r@[k] == (#[trigger] old(self)@.objects[id as int][k]).0,
    {
        let top = self.acquire();
        let ghost entries = self@.objects[id as int];
        let n = self.objects[id].len();
        let mut r: Vec<String> = Vec::new();
        let mut i: usize = 0;
        while i < n
            invariant
                self@ == (ScopeModel { active: true, ..old(self)@ }),
                id < self@.objects.len(),
                entries == self@.objects[id as int],
                n == entries.len(),
                i <= n,
                r@.len() == i,
                forall|k: int| 0 <= k < i ==> r@[k] == (#[trigger] entries[k]).0,
            decreases n - i,
        {
            r.push(self.objects[id][i].0.clone());
            i = i + 1;
        }
        self.release(top);
        r
    }

    /// Allocates a fresh, empty array entity.
    pub(crate) fn arr_new(&mut self) -> (id: usize)
        requires
            old(self).wf(),
        ensures
            final(self).wf(),
            id == old(self)@.arrays.len(),
            final(self)@ == (ScopeModel {
                arrays: old(self)@.arrays.push(Seq::empty()),
                ..old(self)@
            }),
    {
        let top = self.acquire();
        let id = self.arrays.len();
        self.arrays.push(Vec::new());
        self.release(top);
        proof {
            assert(final(self)@.arrays =~= old(self)@.arrays.push(Seq::empty()));
            assert(final(self)@ == (ScopeModel {
                arrays: old(self)@.arrays.push(Seq::empty()),
                ..old(self)@
            }));
            assert forall|i: int, j: int|
                0 <= i < final(self)@.arrays.len() && 0 <= j < final(self)@.arrays[i].len()
                implies value_valid(final(self)@, #[trigger] final(self)@.arrays[i][j]) by {
                assert(final(self)@.arrays[i] == old(self)@.arrays[i]);
            }
        }
        id
    }

    /// The length of array `id`.
    pub(crate) fn arr_len(&mut self, id: usize) -> (r: u32)
        requires
            old(self).wf(),
            id < old(self)@.arrays.len(),
        ensures
            final(self)@ == old(self)@,
            r == old(self)@.arrays[id as int].len(),
    {
        let top = self.acquire();
        let r = self.arrays[id].len();
        self.release(top);
        r as u32
    }

    /// The element of array `id` at `index`; a read out of range yields
    /// `Undefined`.
    pub(crate) fn arr_get(&mut self, id: usize, index: u32) -> (r: Value)
        requires
            old(self).wf(),
            id < old(self)@.arrays.len(),
        ensures
            final(self)@ == old(self)@,
            r == elem_at(old(self)@.arrays[id as int], index as int),
            value_valid(old(self)@, r),
    {
        let top = self.acquire();
        let n = self.arrays[id].len();
        let r = if (index as usize) < n {
            self.arrays[id][index as usize].clone()
        } else {
            Value::Undefined
        };
        self.release(top);
        r
    }

    /// Writes `value` at `index` into array `id`, extending the array with
    /// `Undefined` holes when `index` is past the end.
    pub(crate) fn arr_set(&mut self, id: usize, index: u32, value: Value)
        requires
            old(self).wf(),
            id < old(self)@.arrays.len(),
            value_valid(old(self)@, value),
            index < 0xffff_ffffu32,
        ensures
            final(self).wf(),
            final(self)@ == (ScopeModel {
                arrays: old(self)@.arrays.update(
                    id as int,
                    elem_store(old(self)@.arrays[id as int], index as int, value),
                ),
                ..old(self)@
            }),
    {
        let top = self.acquire();
        let ghost elems = self@.arrays[id as int];
        let mut work: Vec<Value> = Vec::new();
        core::mem::swap(&mut work, &mut self.arrays[id]);
        proof {
            assert(work@ == elems);
        }
        if (index as usize) < work.len() {
            work[index as usize] = value;
            proof {
                assert(work@ =~= elem_store(elems, index as int, value));
            }
        } else {
            proof {
                assert(work@ =~= elems + undefined_run((work@.len() - elems.len()) as nat));
            }
            while work.len() < index as usize
                invariant
                    elems.len() <= work@.len() <= index as usize,
                    work@ == elems + undefined_run((work@.len() - elems.len()) as nat),
                    index < 0xffff_ffffu32,
                decreases index as usize - work.len(),
            {
                work.push(Value::Undefined);
                proof {
                    assert(work@ =~= elems + undefined_run((work@.len() - elems.len()) as nat));
                }
            }
            work.push(value);
            proof {
                assert(work@ =~= elem_store(elems, index as int, value));
            }
        }
        core::mem::swap(&mut work, &mut self.arrays[id]);
        proof {
            assert(self@.arrays =~~= old(self)@.arrays.update(
                id as int,
                elem_store(elems, index as int, value),
            ));
        }
        self.release(top);
        proof {
            let m2 = final(self)@;
            assert(m2.arrays =~= old(self)@.arrays.update(
                id as int,
                elem_store(elems, index as int, value),
            )) by {
                assert(m2.arrays[id as int] =~= elem_store(elems, index as int, value));
            }
            assert(m2 == (ScopeModel {
                arrays: old(self)@.arrays.update(
                    id as int,
                    elem_store(elems, index as int, value),
                ),
                ..old(self)@
            }));
            let stored = elem_store(elems, index as int, value);
            assert forall|i: int, j: int|
                0 <= i < m2.arrays.len() && 0 <= j < m2.arrays[i].len() implies value_valid(
                m2,
                #[trigger] m2.arrays[i][j],
            ) by {
                if i != id as int {
                    assert(m2.arrays[i] == old(self)@.arrays[i]);
                    assert(value_valid(old(self)@, m2.arrays[i][j]));
                } else {
                    assert(m2.arrays[i] == stored);
                    if stored[j] != value && stored[j] != Value::Undefined {
                        assert(0 <= j < elems.len() && stored[j] == elems[j]);
                        assert(value_valid(old(self)@, elems[j]));
                    }
                }
            }
        }
    }

    /// Appends `value` to array `id`.
    pub(crate) fn arr_push(&mut self, id: usize, value: Value)
        requires
            old(self).wf(),
            id < old(self)@.arrays.len(),
            value_valid(old(self)@, value),
            old(self)@.arrays[id as int].len() < 0xffff_ffff,
        ensures
            final(self).wf(),
            final(self)@ == (ScopeModel {
                arrays: old(self)@.arrays.update(
                    id as int,
                    old(self)@.arrays[id as int].push(value),
                ),
                ..old(self)@
            }),
    {
        let top = self.acquire();
        let ghost elems = self@.arrays[id as int];
        self.arrays[id].push(value);
        self.release(top);
        proof {
            let m2 = final(self)@;
            assert(m2.arrays =~= old(self)@.arrays.update(id as int, elems.push(value))) by {
                assert(m2.arrays[id as int] =~= elems.push(value));
            }
            assert(m2 == (ScopeModel {
                arrays: old(self)@.arrays.update(id as int, elems.push(value)),
                ..old(self)@
            }));
            assert forall|i: int, j: int|
                0 <= i < m2.arrays.len() && 0 <= j < m2.arrays[i].len() implies value_valid(
                m2,
                #[trigger] m2.arrays[i][j],
            ) by {
                if i != id as int {
                    assert(m2.arrays[i] == old(self)@.arrays[i]);
                    assert(value_valid(old(self)@, m2.arrays[i][j]));
                } else if j < elems.len() {
                    assert(m2.arrays[i][j] == elems[j]);
                    assert(value_valid(old(self)@, elems[j]));
                }
            }
        }
    }

    /// Installs a function wrapper for `token`, exactly once per token:
    /// re-installing an already-installed token changes nothing and yields
    /// the existing entity.
    pub(crate) fn fn_install(&mut self, token: u64) -> (id: usize)
        requires
            old(self).wf(),
        ensures
            final(self).wf(),
            id < final(self)@.functions.len(),
            final(self)@.functions[id as int] == token,
            has_token(old(self)@.functions, token) ==> final(self)@ == old(self)@,
            !has_token(old(self)@.functions, token) ==> final(self)@ == (ScopeModel {
                functions: old(self)@.functions.push(token),
                ..old(self)@
            }) && id == old(self)@.functions.len(),
    {
        let top = self.acquire();
        let ghost tokens = self@.functions;
        let n = self.functions.len();
        let mut i: usize = 0;
        let mut idx: Option<usize> = None;
        while i < n && idx.is_none()
            invariant
                self@ == (ScopeModel { active: true, ..old(self)@ }),
                tokens == self@.functions,
                n == tokens.len(),
                i <= n,
                idx is None ==> forall|k: int| 0 <= k < i ==> tokens[k] != token,
                idx matches Some(j) ==> j < n && tokens[j as int] == token,
            decreases n - i,
        {
            if self.functions[i] == token {
                idx = Some(i);
            }
            i = i + 1;
        }
        let id = match idx {
            Some(j) => {
                proof {
                    assert(has_token(tokens, token));
                }
                j
            },
            None => {
                proof {
                    assert(!has_token(tokens, token));
                }
                self.functions.push(token);
                n
            },
        };
        self.release(top);
        proof {
            let m2 = final(self)@;
            if !has_token(tokens, token) {
                assert(m2 == (ScopeModel { functions: tokens.push(token), ..old(self)@ }));
                assert forall|oi: int, oj: int|
                    0 <= oi < m2.objects.len() && 0 <= oj < m2.objects[oi].len()
                    implies value_valid(m2, (#[trigger] m2.objects[oi][oj]).1) by {
                    assert(value_valid(old(self)@, m2.objects[oi][oj].1));
                }
                assert forall|oi: int, oj: int|
                    0 <= oi < m2.arrays.len() && 0 <= oj < m2.arrays[oi].len() implies value_valid(
                    m2,
                    #[trigger] m2.arrays[oi][oj],
                ) by {
                    assert(value_valid(old(self)@, m2.arrays[oi][oj]));
                }
            }
        }
        id
    }

    /// How many array and object entities the heap holds, together: the
    /// bound a traversal of the reference graph can rely on.
    pub(crate) fn entity_count(&self) -> (r: u64)
        requires
            self@.arrays.len() + self@.objects.len() <= u64::MAX,
        ensures
            r == self@.arrays.len() + self@.objects.len(),
    {
        (self.arrays.len() as u64) + (self.objects.len() as u64)
    }

    /// The registry token of function wrapper `id`.
    pub(crate) fn fn_token(&mut self, id: usize) -> (r: u64)
        requires
            old(self).wf(),
            id < old(self)@.functions.len(),
        ensures
            final(self)@ == old(self)@,
            r == old(self)@.functions[id as int],
    {
        let top = self.acquire();
        let r = self.functions[id];
        self.release(top);
        r
    }
}

} // verus!
