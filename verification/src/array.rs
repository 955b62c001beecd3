use vstd::prelude::*;

use crate::scope::{elem_at, elem_store, value_valid, Scope, ScopeModel};
use crate::value::{Array, Value};

verus! {

impl Array {
    /// Allocates a fresh, empty array entity and returns a handle to it.
    pub fn new(scope: &mut Scope) -> (r: Array)
        requires
            old(scope).wf(),
        ensures
            final(scope).wf(),
            r.id == old(scope)@.arrays.len(),
            final(scope)@ == (ScopeModel {
                arrays: old(scope)@.arrays.push(Seq::empty()),
                ..old(scope)@
            }),
            value_valid(final(scope)@, Value::Array(r)),
    {
        let id = scope.arr_new();
        Array { id }
    }

    /// The array's length.
    pub fn length(&self, scope: &mut Scope) -> (r: u32)
        requires
            old(scope).wf(),
            self.id < old(scope)@.arrays.len(),
        ensures
            final(scope)@ == old(scope)@,
            r == old(scope)@.arrays[self.id as int].len(),
    {
        scope.arr_len(self.id)
    }

    /// The element at `index`; a read out of range yields `Undefined`.
    pub fn get(&self, scope: &mut Scope, index: u32) -> (r: Value)
        requires
            old(scope).wf(),
            self.id < old(scope)@.arrays.len(),
        ensures
            final(scope)@ == old(scope)@,
            r == elem_at(old(scope)@.arrays[self.id as int], index as int),
            value_valid(old(scope)@, r),
    {
        scope.arr_get(self.id, index)
    }

    /// Writes `value` at `index`, extending the array with `Undefined`
    /// holes when `index` is past the end, as a script write would.
    pub fn set(&self, scope: &mut Scope, index: u32, value: Value)
        requires
            old(scope).wf(),
            self.id < old(scope)@.arrays.len(),
            value_valid(old(scope)@, value),
            index < 0xffff_ffffu32,
        ensures
            final(scope).wf(),
            final(scope)@ == (ScopeModel {
                arrays: old(scope)@.arrays.update(
                    self.id as int,
                    elem_store(old(scope)@.arrays[self.id as int], index as int, value),
                ),
                ..old(scope)@
            }),
    {
        scope.arr_set(self.id, index, value)
    }

    /// Appends `value`: the length grows by exactly one and the new
    /// element is retrievable at the previous length.
    pub fn push(&self, scope: &mut Scope, value: Value)
        requires
            old(scope).wf(),
            self.id < old(scope)@.arrays.len(),
            value_valid(old(scope)@, value),
            old(scope)@.arrays[self.id as int].len() < 0xffff_ffff,
        ensures
            final(scope).wf(),
            final(scope)@ == (ScopeModel {
                arrays: old(scope)@.arrays.update(
                    self.id as int,
                    old(scope)@.arrays[self.id as int].push(value),
                ),
                ..old(scope)@
            }),
            final(scope)@.arrays[self.id as int].len() == old(scope)@.arrays[self.id as int].len()
                + 1,
            elem_at(
                final(scope)@.arrays[self.id as int],
                old(scope)@.arrays[self.id as int].len() as int,
            ) == value,
    {
        scope.arr_push(self.id, value)
    }
}

/// Law: appending to an array grows its length by exactly one, the new
/// element is retrievable at the new last index, and every element below
/// it is untouched.
pub proof fn lemma_push_grows_by_one(elems: Seq<Value>, value: Value)
    ensures
        elems.push(value).len() == elems.len() + 1,
        elem_at(elems.push(value), elems.len() as int) == value,
        forall|i: int| 0 <= i < elems.len() ==> elem_at(elems.push(value), i) == elem_at(elems, i),
{
}

} // verus!
