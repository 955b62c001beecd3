use vstd::prelude::*;

use crate::scope::{elem_at, has_token, Scope, ScopeModel};
use crate::value::{Error, Function, Value};

verus! {

/// A host callback that script-side calls are forwarded to. The scope it
/// receives is the delegating one of the call in progress: the engine
/// context is already entered, and a nested acquisition inside the
/// callback reuses it.
///
/// An uncaught failure inside the callback — for an engine-backed target,
/// a thrown script value — comes back as `Err(Error::Runtime(thrown))`,
/// recoverable per call, and is handed to the caller as it is.
///
/// `behavior` is the implementation's own input/output relation, and
/// `invoke` is bound to it: whatever `invoke` hands back stands in that
/// relation to the delivered argument snapshot. Its default claims
/// nothing, so an implementation outside verified code — which cannot
/// override a spec function — is never believed beyond "some result came
/// back"; only an implementation verified here can claim, and must then
/// prove, an exact relation. What [`Function::call`] promises about a
/// call's result is exactly the registered callback's relation.
pub trait Callback {
    /// Which results this callback may hand back for a given argument
    /// snapshot.
    open spec fn behavior(&self, args: Seq<Value>, r: Result<Value, Error>) -> bool {
        true
    }

    fn invoke(&self, scope: &mut Scope, args: Args) -> (r: Result<Value, Error>)
        ensures
            self.behavior(args@, r),
    ;
}

/// The simplest host target: it hands back the first argument unchanged
/// (`Undefined` when the call passed none) and touches nothing. A
/// verified witness that the `behavior` obligation is meetable exactly,
/// and a target whose calls are pinned end to end.
pub struct Echo;

impl Callback for Echo {
    open spec fn behavior(&self, args: Seq<Value>, r: Result<Value, Error>) -> bool {
        r == Ok::<Value, Error>(elem_at(args, 0))
    }

    fn invoke(&self, _scope: &mut Scope, args: Args) -> (r: Result<Value, Error>) {
        Ok(args.get(0))
    }
}

/// Whether `entries` holds a callback registered under `token`.
pub open spec fn has_entry<C>(entries: Seq<(u64, C)>, token: u64) -> bool {
    exists|i: int| 0 <= i < entries.len() && (#[trigger] entries[i]).0 == token
}

/// The callback registered under `token` (meaningful when `has_entry`
/// holds; tokens are registered at most once, so it is the only one).
pub open spec fn entry_for<C>(entries: Seq<(u64, C)>, token: u64) -> C {
    entries[choose|i: int| 0 <= i < entries.len() && (#[trigger] entries[i]).0 == token].1
}

/// An ordered, fixed-length snapshot of the values passed to a call.
pub struct Args {
    values: Vec<Value>,
}

impl View for Args {
    type V = Seq<Value>;

    closed spec fn view(&self) -> Seq<Value> {
        self.values@
    }
}

impl Args {
    /// Snapshots a call's argument values.
    pub fn capture(values: &[Value]) -> (r: Args)
        requires
            values@.len() <= 0xffff_ffff,
        ensures
            r@ == values@,
    {
        let n = values.len();
        let mut snapshot: Vec<Value> = Vec::new();
        let mut i: usize = 0;
        while i < n
            invariant
                n == values@.len(),
                i <= n,
                snapshot@.len() == i,
                forall|k: int| 0 <= k < i ==> snapshot@[k] == values@[k],
            decreases n - i,
        {
            snapshot.push(values[i].clone());
            i = i + 1;
        }
        proof {
            assert(snapshot@ =~= values@);
        }
        Args { values: snapshot }
    }

    /// The argument at `index`, with an `Undefined` default for a read out
    /// of range, mirroring permissive call arity.
    pub fn get(&self, index: usize) -> (r: Value)
        ensures
            r == elem_at(self@, index as int),
    {
        if index < self.values.len() {
            self.values[index].clone()
        } else {
            Value::Undefined
        }
    }

    /// How many arguments the call passed.
    pub fn length(&self) -> (r: u32)
        requires
            self@.len() <= 0xffff_ffff,
        ensures
            r == self@.len(),
    {
        self.values.len() as u32
    }
}

/// The process-side table of host callbacks, keyed by an opaque integer
/// token. Its model is the sequence of registered tokens, in registration
/// order; registration is idempotent per token.
///
/// The host picks one callback type `C`; a host with several distinct
/// callbacks dispatches on its own data inside `C`.
pub struct Registry<C: Callback> {
    entries: Vec<(u64, C)>,
}

impl<C: Callback> View for Registry<C> {
    type V = Seq<(u64, C)>;

    closed spec fn view(&self) -> Seq<(u64, C)> {
        self.entries@
    }
}

impl<C: Callback> Registry<C> {
    /// The registered tokens, in registration order.
    pub open spec fn tokens(&self) -> Seq<u64> {
        self@.map_values(|e: (u64, C)| e.0)
    }

    /// Tokens are registered at most once.
    pub open spec fn wf(&self) -> bool {
        forall|i: int, j: int|
            0 <= i < j < self@.len() ==> (#[trigger] self@[i]).0 != (#[trigger] self@[j]).0
    }

    /// An empty registry.
    pub fn new() -> (r: Registry<C>)
        ensures
            r.wf(),
            r@ == Seq::<(u64, C)>::empty(),
    {
        let r = Registry { entries: Vec::new() };
        proof {
            assert(r@ =~= Seq::<(u64, C)>::empty());
        }
        r
    }

    /// Registers `callback` under `token`, exactly once per token:
    /// registering an already-registered token is a no-op.
    pub fn register(&mut self, token: u64, callback: C)
        requires
            old(self).wf(),
        ensures
            final(self).wf(),
            has_entry(final(self)@, token),
            has_entry(old(self)@, token) ==> final(self)@ == old(self)@,
            !has_entry(old(self)@, token) ==> final(self)@ == old(self)@.push((token, callback)),
    {
        let ghost entries = self@;
        let n = self.entries.len();
        let mut i: usize = 0;
        let mut present = false;
        while i < n && !present
            invariant
                entries == self@,
                n == entries.len(),
                i <= n,
                !present ==> forall|k: int| 0 <= k < i ==> (#[trigger] entries[k]).0 != token,
                present ==> has_entry(entries, token),
            decreases n - i,
        {
            if self.entries[i].0 == token {
                present = true;
                proof {
                    assert(entries[i as int].0 == token);
                }
            }
            i = i + 1;
        }
        if !present {
            proof {
                assert(!has_entry(entries, token));
            }
            self.entries.push((token, callback));
            proof {
                assert(self@ =~= entries.push((token, callback)));
                assert(self@[entries.len() as int].0 == token);
            }
        }
    }

    /// The callback registered under `token`, if any: the very callback
    /// that token's entry holds, not merely some callback.
    pub fn lookup(&self, token: u64) -> (r: Option<&C>)
        requires
            self.wf(),
        ensures
            r is Some <==> has_entry(self@, token),
            r matches Some(c) ==> has_entry(self@, token) && *c == entry_for(self@, token),
    {
        let n = self.entries.len();
        let mut i: usize = 0;
        while i < n
            invariant
                self.wf(),
                n == self@.len(),
                i <= n,
                forall|k: int| 0 <= k < i ==> (#[trigger] self@[k]).0 != token,
            decreases n - i,
        {
            if self.entries[i].0 == token {
                proof {
                    assert(self@[i as int].0 == token);
                    assert(has_entry(self@, token));
                    let w = choose|k: int|
                        0 <= k < self@.len() && (#[trigger] self@[k]).0 == token;
                    assert(self@[w].0 == token);
                    assert(w == i as int);
                }
                return Some(&self.entries[i].1);
            }
            i = i + 1;
        }
        proof {
            assert(!has_entry(self@, token));
        }
        None
    }
}

impl Function {
    /// Installs a host callback as a script-callable function.
    ///
    /// The callback is identified by an opaque integer token; both the
    /// registry entry and the scope's wrapper entity are installed exactly
    /// once per token, so installing the same token again yields the
    /// wrapper that already exists.
    pub fn new<C: Callback>(
        scope: &mut Scope,
        registry: &mut Registry<C>,
        token: u64,
        callback: C,
    ) -> (r: Function)
        requires
            old(scope).wf(),
            old(registry).wf(),
        ensures
            final(scope).wf(),
            final(registry).wf(),
            r.id < final(scope)@.functions.len(),
            final(scope)@.functions[r.id as int] == token,
            has_entry(final(registry)@, token),
            has_token(old(scope)@.functions, token) ==> final(scope)@ == old(scope)@,
            !has_token(old(scope)@.functions, token) ==> final(scope)@ == (ScopeModel {
                functions: old(scope)@.functions.push(token),
                ..old(scope)@
            }) && r.id == old(scope)@.functions.len(),
            has_entry(old(registry)@, token) ==> final(registry)@ == old(registry)@,
            !has_entry(old(registry)@, token) ==> final(registry)@ == old(registry)@.push(
                (token, callback),
            ),
    {
        registry.register(token, callback);
        let id = scope.fn_install(token);
        Function { id }
    }

    /// The opaque token this wrapper was installed under: the key an
    /// embedding uses for its own table of native targets.
    pub fn token(&self, scope: &mut Scope) -> (r: u64)
        requires
            old(scope).wf(),
            self.id < old(scope)@.functions.len(),
        ensures
            final(scope)@ == old(scope)@,
            r == old(scope)@.functions[self.id as int],
    {
        scope.fn_token(self.id)
    }

    /// Calls the function with an exact snapshot of `args` and no
    /// receiver. It is the callback registered under this wrapper's token
    /// — that one, no other — that runs, against the delegating scope of
    /// this call, and its result, a value or the recoverable error it
    /// failed with, is handed to the caller as it is: the result stands
    /// in the registered callback's own [`Callback::behavior`] relation
    /// to `args`. Nothing is assumed about what the callback does to the
    /// heap. A call to a function whose token has no registered callback
    /// fails with a recoverable `Runtime` error instead of aborting.
    pub fn call<C: Callback>(
        &self,
        scope: &mut Scope,
        registry: &Registry<C>,
        args: &[Value],
    ) -> (r: Result<Value, Error>)
        requires
            old(scope).wf(),
            registry.wf(),
            self.id < old(scope)@.functions.len(),
            args@.len() <= 0xffff_ffff,
        ensures
            !has_entry(registry@, old(scope)@.functions[self.id as int]) ==> final(scope)@ == old(
                scope,
            )@ && r == Err::<Value, Error>(Error::Runtime(Value::Undefined)),
            has_entry(registry@, old(scope)@.functions[self.id as int]) ==> entry_for(
                registry@,
                old(scope)@.functions[self.id as int],
            ).behavior(args@, r),
            !old(scope)@.active ==> !final(scope)@.active,
    {
        let token = scope.fn_token(self.id);
        match registry.lookup(token) {
            None => Err(Error::Runtime(Value::Undefined)),
            Some(callback) => {
                proof {
                    assert(*callback == entry_for(registry@, token));
                }
                let snapshot = Args::capture(args);
                let top = scope.acquire();
                let ret = callback.invoke(scope, snapshot);
                scope.release(top);
                proof {
                    assert(entry_for(registry@, token).behavior(args@, ret));
                }
                ret
            },
        }
    }
}

/// Law: installation is idempotent. With tokens registered at most once,
/// two wrapper entities carrying the same token are the same entity.
pub proof fn lemma_install_idempotent(tokens: Seq<u64>, token: u64, a: int, b: int)
    requires
        forall|i: int, j: int| 0 <= i < j < tokens.len() ==> tokens[i] != tokens[j],
        0 <= a < tokens.len(),
        0 <= b < tokens.len(),
        tokens[a] == token,
        tokens[b] == token,
    ensures
        a == b,
{
}

} // verus!
