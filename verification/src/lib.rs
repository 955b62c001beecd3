//! A verified value bridge for a JavaScript-compatible script heap.
//!
//! The crate models the core of a host/script bridge: a tagged [`Value`]
//! union, handles into a scoped heap with shared-reference semantics, an
//! authority token ([`Scope`]) that mediates every heap access, marshaling
//! of call arguments, an idempotent registry of host callbacks, and a JSON
//! bridge over the value model. Engine embeddings sit outside the verified
//! core and bind these semantics to a concrete runtime.

pub mod array;
pub mod function;
pub mod json;
pub mod module;
pub mod number;
pub mod object;
pub mod scope;
pub mod value;

pub use function::{Args, Callback, Echo, Registry};
pub use json::Json;
pub use module::{init, Module};
pub use number::Number;
pub use scope::Scope;
pub use value::{classify, Array, Error, Function, Object, Tag, TypeProbes, Value};
