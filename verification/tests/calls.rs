use unijs::{Args, Callback, Echo, Error, Function, Module, Number, Registry, Scope, Value};

/// A host callback that checks the argument snapshot it is handed and
/// reports what it saw through its return value.
struct Inspect;

impl Callback for Inspect {
    fn invoke(&self, _scope: &mut Scope, args: Args) -> Result<Value, Error> {
        let ok = args.length() == 2
            && args.get(0) == Value::Number(Number::from_bits(1.0f64.to_bits()))
            && args.get(1) == Value::String("x".to_string())
            && args.get(2) == Value::Undefined;
        Ok(Value::Bool(ok))
    }
}

/// A host callback that writes into the heap through the delegating scope
/// it is handed.
struct WriteMark;

impl Callback for WriteMark {
    fn invoke(&self, scope: &mut Scope, _args: Args) -> Result<Value, Error> {
        let obj = unijs::Object::new(scope);
        obj.set(scope, "mark", Value::Bool(true));
        Ok(Value::from(obj))
    }
}

/// A host callback that dispatches on its payload, so two registered
/// targets stay apart.
struct Tagged(u64);

impl Callback for Tagged {
    fn invoke(&self, _scope: &mut Scope, _args: Args) -> Result<Value, Error> {
        Ok(Value::Number(Number::from_bits((self.0 as f64).to_bits())))
    }
}

/// A host callback that fails, the way an engine-backed target fails when
/// the script it runs throws: the thrown value rides in the error.
struct Throw;

impl Callback for Throw {
    fn invoke(&self, _scope: &mut Scope, _args: Args) -> Result<Value, Error> {
        Err(Error::Runtime(Value::String("boom".to_string())))
    }
}

#[test]
fn call_delivers_args_and_returns_result() {
    let (mut scope, _) = Module::load();
    let mut registry: Registry<Inspect> = Registry::new();
    let f = Function::new(&mut scope, &mut registry, 1, Inspect);
    let args = [
        Value::Number(Number::from_bits(1.0f64.to_bits())),
        Value::String("x".to_string()),
    ];
    let ret = f.call(&mut scope, &registry, &args);
    assert_eq!(ret, Ok(Value::Bool(true)));
}

#[test]
fn thrown_value_comes_back_as_recoverable_error() {
    let (mut scope, _) = Module::load();
    let mut registry: Registry<Throw> = Registry::new();
    let f = Function::new(&mut scope, &mut registry, 5, Throw);
    let ret = f.call(&mut scope, &registry, &[]);
    assert_eq!(
        ret,
        Err(Error::Runtime(Value::String("boom".to_string())))
    );
    // the failure is per call: the scope stays usable afterwards
    let obj = unijs::Object::new(&mut scope);
    obj.set(&mut scope, "after", Value::Bool(true));
    assert_eq!(obj.get(&mut scope, "after"), Value::Bool(true));
    assert!(!scope.is_active());
}

#[test]
fn echo_returns_its_first_argument() {
    let (mut scope, _) = Module::load();
    let mut registry: Registry<Echo> = Registry::new();
    let f = Function::new(&mut scope, &mut registry, 4, Echo);
    let ret = f.call(
        &mut scope,
        &registry,
        &[Value::String("first".to_string()), Value::Null],
    );
    assert_eq!(ret, Ok(Value::String("first".to_string())));
    // with no arguments, the permissive-arity default comes back
    assert_eq!(f.call(&mut scope, &registry, &[]), Ok(Value::Undefined));
}

#[test]
fn install_is_idempotent() {
    let (mut scope, _) = Module::load();
    let mut registry: Registry<Inspect> = Registry::new();
    let f1 = Function::new(&mut scope, &mut registry, 7, Inspect);
    let f2 = Function::new(&mut scope, &mut registry, 7, Inspect);
    assert_eq!(f1, f2);
}

#[test]
fn call_without_registered_target_is_recoverable() {
    let (mut scope, _) = Module::load();
    let mut registry: Registry<Inspect> = Registry::new();
    let f = Function::new(&mut scope, &mut registry, 3, Inspect);
    let empty: Registry<Inspect> = Registry::new();
    let ret = f.call(&mut scope, &empty, &[]);
    assert_eq!(ret, Err(Error::Runtime(Value::Undefined)));
}

#[test]
fn call_runs_the_callback_of_its_own_token() {
    let (mut scope, _) = Module::load();
    let mut registry: Registry<Tagged> = Registry::new();
    let first = Function::new(&mut scope, &mut registry, 10, Tagged(10));
    let second = Function::new(&mut scope, &mut registry, 20, Tagged(20));
    assert_eq!(
        first.call(&mut scope, &registry, &[]),
        Ok(Value::Number(Number::from_bits(10.0f64.to_bits())))
    );
    assert_eq!(
        second.call(&mut scope, &registry, &[]),
        Ok(Value::Number(Number::from_bits(20.0f64.to_bits())))
    );
}

#[test]
fn callback_runs_against_the_delegating_scope() {
    let (mut scope, _) = Module::load();
    let mut registry: Registry<WriteMark> = Registry::new();
    let f = Function::new(&mut scope, &mut registry, 9, WriteMark);
    let ret = f.call(&mut scope, &registry, &[]).unwrap();
    let obj = ret.into_object().unwrap();
    assert_eq!(obj.get(&mut scope, "mark"), Value::Bool(true));
    assert!(!scope.is_active());
}

#[test]
fn function_value_round_trips_through_object() {
    let (mut scope, exports) = Module::load();
    let mut registry: Registry<Inspect> = Registry::new();
    let f = Function::new(&mut scope, &mut registry, 2, Inspect);
    exports.set(&mut scope, "cb", Value::from(f));
    let back = exports.get(&mut scope, "cb").into_function().unwrap();
    assert_eq!(back, f);
}
