use vstd::prelude::*;

use crate::number::Number;

verus! {

/// A reference to an array entity in a scope's heap.
///
/// Cloning a handle duplicates the reference, never the referent: two
/// handles with the same `id` alias the same entity, and a mutation made
/// through one is observable through the other.
#[derive(Clone, Copy, PartialEq, Eq, Structural, Debug)]
pub struct Array {
    pub id: usize,
}

/// A reference to an object entity in a scope's heap.
///
/// The same aliasing rule as for [`Array`] applies: the handle carries the
/// entity's identity, not its contents.
#[derive(Clone, Copy, PartialEq, Eq, Structural, Debug)]
pub struct Object {
    pub id: usize,
}

/// A reference to a function wrapper entity in a scope's heap.
#[derive(Clone, Copy, PartialEq, Eq, Structural, Debug)]
pub struct Function {
    pub id: usize,
}

/// The bridge's value model: a closed tagged union with exactly one active
/// tag. The three reference variants wrap a handle, not a copy of the
/// referent.
#[derive(PartialEq, Debug)]
pub enum Value {
    Undefined,
    Null,
    Bool(bool),
    Number(Number),
    String(String),
    Array(Array),
    Object(Object),
    Function(Function),
}

impl Clone for Value {
    /// Duplicates the value; for the reference variants this duplicates the
    /// reference, never the referent.
    fn clone(&self) -> (r: Self)
        ensures
            r == *self,
    {
        match self {
            Value::Undefined => Value::Undefined,
            Value::Null => Value::Null,
            Value::Bool(b) => Value::Bool(*b),
            Value::Number(n) => Value::Number(*n),
            Value::String(s) => Value::String(s.clone()),
            Value::Array(a) => Value::Array(*a),
            Value::Object(o) => Value::Object(*o),
            Value::Function(f) => Value::Function(*f),
        }
    }
}

impl Value {
    pub fn is_undefined(self) -> (r: bool)
        ensures
            r == (self is Undefined),
    {
        matches!(self, Value::Undefined)
    }

    pub fn is_null(self) -> (r: bool)
        ensures
            r == (self is Null),
    {
        matches!(self, Value::Null)
    }

    pub fn is_bool(self) -> (r: bool)
        ensures
            r == (self is Bool),
    {
        matches!(self, Value::Bool(..))
    }

    pub fn is_number(self) -> (r: bool)
        ensures
            r == (self is Number),
    {
        matches!(self, Value::Number(..))
    }

    pub fn is_string(self) -> (r: bool)
        ensures
            r == (self is String),
    {
        matches!(self, Value::String(..))
    }

    pub fn is_array(self) -> (r: bool)
        ensures
            r == (self is Array),
    {
        matches!(self, Value::Array(..))
    }

    pub fn is_object(self) -> (r: bool)
        ensures
            r == (self is Object),
    {
        matches!(self, Value::Object(..))
    }

    pub fn is_function(self) -> (r: bool)
        ensures
            r == (self is Function),
    {
        matches!(self, Value::Function(..))
    }

    /// The payload if the tag matches, absence otherwise: a mismatch is not
    /// a failure condition.
    pub fn into_bool(self) -> (r: Option<bool>)
        ensures
            r == (if self is Bool {
                Some(self->Bool_0)
            } else {
                None::<bool>
            }),
    {
        if let Value::Bool(b) = self {
            Some(b)
        } else {
            None
        }
    }

    pub fn into_number(self) -> (r: Option<Number>)
        ensures
            r == (if self is Number {
                Some(self->Number_0)
            } else {
                None::<Number>
            }),
    {
        if let Value::Number(n) = self {
            Some(n)
        } else {
            None
        }
    }

    pub fn into_string(self) -> (r: Option<String>)
        ensures
            r == (if self is String {
                Some(self->String_0)
            } else {
                None::<String>
            }),
    {
        if let Value::String(s) = self {
            Some(s)
        } else {
            None
        }
    }

    pub fn into_array(self) -> (r: Option<Array>)
        ensures
            r == (if self is Array {
                Some(self->Array_0)
            } else {
                None::<Array>
            }),
    {
        if let Value::Array(a) = self {
            Some(a)
        } else {
            None
        }
    }

    pub fn into_object(self) -> (r: Option<Object>)
        ensures
            r == (if self is Object {
                Some(self->Object_0)
            } else {
                None::<Object>
            }),
    {
        if let Value::Object(o) = self {
            Some(o)
        } else {
            None
        }
    }

    pub fn into_function(self) -> (r: Option<Function>)
        ensures
            r == (if self is Function {
                Some(self->Function_0)
            } else {
                None::<Function>
            }),
    {
        if let Value::Function(f) = self {
            Some(f)
        } else {
            None
        }
    }
}

/// The text form a value shows: the literal words for the nullish
/// variants, the words of the booleans, a string's own text, and bracket
/// forms for the reference variants. A number shows a bracket form too:
/// the decimal rendering of a double is the embedding's business.
pub open spec fn text_of(v: Value) -> Seq<char> {
    match v {
        Value::Undefined => "undefined"@,
        Value::Null => "null"@,
        Value::Bool(b) => if b {
            "true"@
        } else {
            "false"@
        },
        Value::Number(_) => "[number]"@,
        Value::String(s) => s@,
        Value::Array(_) => "[array]"@,
        Value::Object(_) => "[object]"@,
        Value::Function(_) => "[function]"@,
    }
}

impl Value {
    /// The value's display text, exactly [`text_of`]: what a formatter
    /// impl would print, offered as a method because the core carries no
    /// formatter.
    pub fn to_text(&self) -> (r: String)
        ensures
            r@ == text_of(*self),
    {
        match self {
            Value::Undefined => "undefined".to_owned(),
            Value::Null => "null".to_owned(),
            Value::Bool(b) => if *b {
                "true".to_owned()
            } else {
                "false".to_owned()
            },
            Value::Number(_) => "[number]".to_owned(),
            Value::String(s) => s.clone(),
            Value::Array(_) => "[array]".to_owned(),
            Value::Object(_) => "[object]".to_owned(),
            Value::Function(_) => "[function]".to_owned(),
        }
    }
}

impl From<Array> for Value {
    fn from(value: Array) -> (r: Value) {
        Value::Array(value)
    }
}

impl vstd::std_specs::convert::FromSpecImpl<Array> for Value {
    open spec fn obeys_from_spec() -> bool {
        true
    }

    open spec fn from_spec(value: Array) -> Value {
        Value::Array(value)
    }
}

impl From<Object> for Value {
    fn from(value: Object) -> (r: Value) {
        Value::Object(value)
    }
}

impl vstd::std_specs::convert::FromSpecImpl<Object> for Value {
    open spec fn obeys_from_spec() -> bool {
        true
    }

    open spec fn from_spec(value: Object) -> Value {
        Value::Object(value)
    }
}

impl From<Function> for Value {
    fn from(value: Function) -> (r: Value) {
        Value::Function(value)
    }
}

impl vstd::std_specs::convert::FromSpecImpl<Function> for Value {
    open spec fn obeys_from_spec() -> bool {
        true
    }

    open spec fn from_spec(value: Function) -> Value {
        Value::Function(value)
    }
}

/// A reportable bridge failure. Tag mismatches are not here: they are
/// recovered locally as absence. Text decoding has no failure either; a
/// string crosses the bridge whole, never through a bounded scratch
/// buffer.
#[derive(PartialEq, Debug)]
pub enum Error {
    /// Script source failed to parse; carries the diagnostic message.
    Compile(String),
    /// Script execution or a call failed; carries the thrown value, or
    /// `Undefined` when nothing was thrown.
    Runtime(Value),
    /// A native value matched none of the modeled variants.
    UnsupportedType,
}

/// The outcome of probing a native value against each type test the
/// bridge knows; one probe per modeled variant.
#[derive(Clone, Copy, PartialEq, Eq, Structural, Debug)]
pub struct TypeProbes {
    pub undefined: bool,
    pub null: bool,
    pub boolean: bool,
    pub number: bool,
    pub string: bool,
    pub function: bool,
    pub array: bool,
    pub object: bool,
}

/// The tag a native value classifies under.
#[derive(Clone, Copy, PartialEq, Eq, Structural, Debug)]
pub enum Tag {
    Undefined,
    Null,
    Bool,
    Number,
    String,
    Function,
    Array,
    Object,
}

/// The classification order of the native probes. Function and array are
/// decided before generic object because a native function or array also
/// answers to the object probe; a value that answers to none is a named,
/// explicit failure, never a silent default.
pub open spec fn classify_spec(p: TypeProbes) -> Result<Tag, Error> {
    if p.undefined {
        Ok(Tag::Undefined)
    } else if p.null {
        Ok(Tag::Null)
    } else if p.boolean {
        Ok(Tag::Bool)
    } else if p.number {
        Ok(Tag::Number)
    } else if p.string {
        Ok(Tag::String)
    } else if p.function {
        Ok(Tag::Function)
    } else if p.array {
        Ok(Tag::Array)
    } else if p.object {
        Ok(Tag::Object)
    } else {
        Err(Error::UnsupportedType)
    }
}

/// Classifies a native value from its probe outcomes, in the order the
/// bridge prescribes: undefined, null, boolean, number, string, then
/// function and array before generic object.
pub fn classify(p: TypeProbes) -> (r: Result<Tag, Error>)
    ensures
        r == classify_spec(p),
{
    if p.undefined {
        Ok(Tag::Undefined)
    } else if p.null {
        Ok(Tag::Null)
    } else if p.boolean {
        Ok(Tag::Bool)
    } else if p.number {
        Ok(Tag::Number)
    } else if p.string {
        Ok(Tag::String)
    } else if p.function {
        Ok(Tag::Function)
    } else if p.array {
        Ok(Tag::Array)
    } else if p.object {
        Ok(Tag::Object)
    } else {
        Err(Error::UnsupportedType)
    }
}

/// Law: the probe order is a precedence. A value that answers to the
/// function or array probe is never classified as a generic object, even
/// though such a value answers to the object probe too.
pub proof fn lemma_classify_precedence(p: TypeProbes)
    requires
        !p.undefined,
        !p.null,
        !p.boolean,
        !p.number,
        !p.string,
    ensures
        p.function ==> classify_spec(p) == Ok::<Tag, Error>(Tag::Function),
        !p.function && p.array ==> classify_spec(p) == Ok::<Tag, Error>(Tag::Array),
        !p.function && !p.array && p.object ==> classify_spec(p) == Ok::<Tag, Error>(Tag::Object),
        !p.function && !p.array && !p.object ==> classify_spec(p) == Err::<Tag, Error>(
            Error::UnsupportedType,
        ),
{
}

} // verus!
