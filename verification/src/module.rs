use vstd::prelude::*;

use crate::scope::Scope;
use crate::value::Object;

verus! {

/// Process-wide engine initialization. The in-process backend keeps all of
/// its state inside each [`Scope`], so there is nothing to configure here
/// and calling this more than once is harmless.
pub fn init() {
}

/// The entry point for setting up one engine environment.
pub struct Module {
    _private: (),
}

impl Module {
    /// Creates a fresh engine environment: an owning scope over an empty
    /// heap, suspended between operations, together with the
    /// pre-populated, empty exports object that script code would see
    /// under an "exports" binding.
    ///
    /// Running script source against the environment is an embedding's
    /// business and sits outside the verified core; an embedding populates
    /// the exports object through the returned scope.
    pub fn load() -> (r: (Scope, Object))
        ensures
            r.0.wf(),
            r.0@.objects.len() == 1,
            r.0@.objects[0] == Seq::<(String, crate::value::Value)>::empty(),
            r.0@.arrays.len() == 0,
            r.0@.functions.len() == 0,
            !r.0@.active,
            r.1.id == 0,
    {
        let mut scope = Scope::new();
        let exports = Object::new(&mut scope);
        (scope, exports)
    }
}

} // verus!
