use unijs::{init, Array, Module, Number, Object, Value};

#[test]
fn init_is_idempotent() {
    init();
    init();
}

#[test]
fn load_gives_fresh_scope_and_empty_exports() {
    let (mut scope, exports) = Module::load();
    assert!(exports.keys(&mut scope).is_empty());
    assert!(!scope.is_active());
}

#[test]
fn accessors_match_tags() {
    assert!(Value::Undefined.is_undefined());
    assert!(Value::Null.is_null());
    assert!(Value::Bool(true).is_bool());
    assert!(Value::Number(Number::from_bits(0)).is_number());
    assert!(Value::String("hi".to_string()).is_string());
    assert_eq!(Value::Bool(true).into_bool(), Some(true));
    assert_eq!(Value::Null.into_bool(), None);
    assert_eq!(
        Value::String("hi".to_string()).into_string(),
        Some("hi".to_string())
    );
    assert_eq!(Value::Undefined.into_number(), None);
    assert_eq!(Value::Null.into_array().is_some(), false);
    assert_eq!(Value::Null.into_object().is_some(), false);
    assert_eq!(Value::Null.into_function().is_some(), false);
}

#[test]
fn handle_converts_into_value() {
    let (mut scope, _) = Module::load();
    let arr = Array::new(&mut scope);
    let obj = Object::new(&mut scope);
    assert!(Value::from(arr).is_array());
    assert!(Value::from(obj).is_object());
}

#[test]
fn missing_key_is_undefined_not_null() {
    let (mut scope, _) = Module::load();
    let obj = Object::new(&mut scope);
    let got = obj.get(&mut scope, "missing");
    assert!(got.is_undefined());
    assert!(!Value::Undefined.is_null());
}

#[test]
fn set_then_keys_includes_key_exactly_once() {
    let (mut scope, _) = Module::load();
    let obj = Object::new(&mut scope);
    obj.set(&mut scope, "foo", Value::String("bar".to_string()));
    let keys = obj.keys(&mut scope);
    let count: usize = keys.iter().filter(|k| k.as_str() == "foo").count();
    assert_eq!(count, 1);
    // writing the same key again must not duplicate it
    obj.set(&mut scope, "foo", Value::String("baz".to_string()));
    let keys = obj.keys(&mut scope);
    let count: usize = keys.iter().filter(|k| k.as_str() == "foo").count();
    assert_eq!(count, 1);
    assert_eq!(
        obj.get(&mut scope, "foo").into_string(),
        Some("baz".to_string())
    );
}

#[test]
fn keys_keep_insertion_order() {
    let (mut scope, _) = Module::load();
    let obj = Object::new(&mut scope);
    obj.set(&mut scope, "a", Value::Null);
    obj.set(&mut scope, "b", Value::Null);
    obj.set(&mut scope, "c", Value::Null);
    obj.set(&mut scope, "b", Value::Bool(true));
    assert_eq!(
        obj.keys(&mut scope),
        vec!["a".to_string(), "b".to_string(), "c".to_string()]
    );
}

#[test]
fn push_grows_length_by_one_and_is_retrievable() {
    let (mut scope, _) = Module::load();
    let arr = Array::new(&mut scope);
    assert_eq!(arr.length(&mut scope), 0);
    arr.push(&mut scope, Value::Bool(true));
    assert_eq!(arr.length(&mut scope), 1);
    let len = arr.length(&mut scope);
    assert_eq!(arr.get(&mut scope, len - 1), Value::Bool(true));
    arr.push(&mut scope, Value::String("x".to_string()));
    assert_eq!(arr.length(&mut scope), 2);
    assert_eq!(
        arr.get(&mut scope, 1),
        Value::String("x".to_string())
    );
}

#[test]
fn array_read_out_of_range_is_undefined() {
    let (mut scope, _) = Module::load();
    let arr = Array::new(&mut scope);
    assert!(arr.get(&mut scope, 7).is_undefined());
}

#[test]
fn array_write_past_end_extends_with_holes() {
    let (mut scope, _) = Module::load();
    let arr = Array::new(&mut scope);
    arr.set(&mut scope, 3, Value::Bool(true));
    assert_eq!(arr.length(&mut scope), 4);
    assert!(arr.get(&mut scope, 0).is_undefined());
    assert!(arr.get(&mut scope, 2).is_undefined());
    assert_eq!(arr.get(&mut scope, 3), Value::Bool(true));
    arr.set(&mut scope, 1, Value::Null);
    assert_eq!(arr.length(&mut scope), 4);
    assert!(arr.get(&mut scope, 1).is_null());
}

#[test]
fn aliasing_two_handles_same_entity() {
    let (mut scope, exports) = Module::load();
    let inner = Object::new(&mut scope);
    exports.set(&mut scope, "shared", Value::from(inner));
    // two handles obtained from get on the same key, called twice
    let first = exports.get(&mut scope, "shared").into_object().unwrap();
    let second = exports.get(&mut scope, "shared").into_object().unwrap();
    first.set(&mut scope, "written", Value::Bool(true));
    assert_eq!(second.get(&mut scope, "written"), Value::Bool(true));
    // and the mutation is visible through the handle it was stored from
    assert_eq!(inner.get(&mut scope, "written"), Value::Bool(true));
}

#[test]
fn display_text_forms() {
    let (mut scope, _) = Module::load();
    assert_eq!(Value::Undefined.to_text(), "undefined");
    assert_eq!(Value::Null.to_text(), "null");
    assert_eq!(Value::Bool(true).to_text(), "true");
    assert_eq!(Value::Bool(false).to_text(), "false");
    assert_eq!(Value::String("hi".to_string()).to_text(), "hi");
    assert_eq!(Value::Number(Number::from_bits(0)).to_text(), "[number]");
    assert_eq!(Value::from(Array::new(&mut scope)).to_text(), "[array]");
    assert_eq!(Value::from(Object::new(&mut scope)).to_text(), "[object]");
}

#[test]
fn scope_access_is_balanced() {
    let (mut scope, exports) = Module::load();
    assert!(!scope.is_active());
    exports.set(&mut scope, "k", Value::Null);
    assert!(!scope.is_active());
    let top = scope.acquire();
    assert!(top);
    assert!(scope.is_active());
    // a nested acquisition reuses the context instead of entering again
    let nested = scope.acquire();
    assert!(!nested);
    scope.release(nested);
    assert!(scope.is_active());
    scope.release(top);
    assert!(!scope.is_active());
}
