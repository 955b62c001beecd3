use unijs::{Array, Json, Module, Number, Object, Tag, TypeProbes, Value};

fn num(x: f64) -> Value {
    Value::Number(Number::from_bits(x.to_bits()))
}

#[test]
fn whole_number_crosses_as_integer_not_double() {
    let (mut scope, _) = Module::load();
    assert_eq!(num(1234.0).into_json(&mut scope), Some(Json::UInt(1234)));
    assert_eq!(num(0.0).into_json(&mut scope), Some(Json::UInt(0)));
    assert_eq!(num(-0.0).into_json(&mut scope), Some(Json::UInt(0)));
    assert_eq!(num(-7.0).into_json(&mut scope), Some(Json::Int(-7)));
    assert_eq!(
        num(9007199254740992.0).into_json(&mut scope),
        Some(Json::UInt(9007199254740992))
    );
    assert_eq!(
        num(-9223372036854775808.0).into_json(&mut scope),
        Some(Json::Int(i64::MIN))
    );
}

#[test]
fn fractional_and_oversized_numbers_stay_doubles() {
    let (mut scope, _) = Module::load();
    assert_eq!(
        num(12.5).into_json(&mut scope),
        Some(Json::Float(Number::from_bits(12.5f64.to_bits())))
    );
    // 2^64 has no exact unsigned or signed 64-bit shape
    let big = 18446744073709551616.0f64;
    assert_eq!(
        num(big).into_json(&mut scope),
        Some(Json::Float(Number::from_bits(big.to_bits())))
    );
    let very_negative = -9223372036854777856.0f64;
    assert_eq!(
        num(very_negative).into_json(&mut scope),
        Some(Json::Float(Number::from_bits(very_negative.to_bits())))
    );
}

#[test]
fn values_without_a_json_shape() {
    let (mut scope, _) = Module::load();
    assert_eq!(Value::Undefined.into_json(&mut scope), None);
    assert_eq!(num(f64::NAN).into_json(&mut scope), None);
    assert_eq!(num(f64::INFINITY).into_json(&mut scope), None);
}

#[test]
fn array_elements_without_a_shape_encode_as_null() {
    let (mut scope, _) = Module::load();
    let arr = Array::new(&mut scope);
    arr.push(&mut scope, Value::Bool(true));
    arr.push(&mut scope, Value::Undefined);
    arr.push(&mut scope, Value::String("x".to_string()));
    assert_eq!(
        Value::from(arr).into_json(&mut scope),
        Some(Json::Array(vec![
            Json::Bool(true),
            Json::Null,
            Json::String("x".to_string()),
        ]))
    );
}

#[test]
fn object_properties_without_a_shape_are_dropped() {
    let (mut scope, _) = Module::load();
    let obj = Object::new(&mut scope);
    obj.set(&mut scope, "keep", Value::Null);
    obj.set(&mut scope, "drop", Value::Undefined);
    obj.set(&mut scope, "also", num(2.5));
    assert_eq!(
        Value::from(obj).into_json(&mut scope),
        Some(Json::Object(vec![
            ("keep".to_string(), Json::Null),
            (
                "also".to_string(),
                Json::Float(Number::from_bits(2.5f64.to_bits()))
            ),
        ]))
    );
}

#[test]
fn cyclic_reference_graph_has_no_json_shape() {
    let (mut scope, _) = Module::load();
    let obj = Object::new(&mut scope);
    obj.set(&mut scope, "me", Value::from(obj));
    assert_eq!(Value::from(obj).into_json(&mut scope), None);
}

#[test]
fn from_json_builds_numbers_as_doubles() {
    let (mut scope, _) = Module::load();
    let v = Value::from_json(&mut scope, Json::UInt(1234));
    assert_eq!(v, num(1234.0));
    let v = Value::from_json(&mut scope, Json::Int(-42));
    assert_eq!(v, num(-42.0));
    // a 64-bit integer beyond the exact double range rounds to nearest
    let v = Value::from_json(&mut scope, Json::UInt(u64::MAX));
    assert_eq!(v, num(u64::MAX as f64));
    let v = Value::from_json(&mut scope, Json::Int(i64::MIN + 1));
    assert_eq!(v, num((i64::MIN + 1) as f64));
    let v = Value::from_json(&mut scope, Json::UInt(9007199254740993));
    assert_eq!(v, num(9007199254740993u64 as f64));
}

#[test]
fn json_round_trips_through_the_heap() {
    let (mut scope, _) = Module::load();
    let doc = Json::Object(vec![
        ("a".to_string(), Json::UInt(1)),
        (
            "b".to_string(),
            Json::Array(vec![
                Json::Null,
                Json::Bool(true),
                Json::String("x".to_string()),
                Json::Float(Number::from_bits(0.5f64.to_bits())),
            ]),
        ),
        ("c".to_string(), Json::Int(-3)),
    ]);
    let expected = Json::Object(vec![
        ("a".to_string(), Json::UInt(1)),
        (
            "b".to_string(),
            Json::Array(vec![
                Json::Null,
                Json::Bool(true),
                Json::String("x".to_string()),
                Json::Float(Number::from_bits(0.5f64.to_bits())),
            ]),
        ),
        ("c".to_string(), Json::Int(-3)),
    ]);
    let v = Value::from_json(&mut scope, doc);
    assert_eq!(v.into_json(&mut scope), Some(expected));
}

#[test]
fn classification_prefers_function_and_array_over_object() {
    let none = TypeProbes {
        undefined: false,
        null: false,
        boolean: false,
        number: false,
        string: false,
        function: false,
        array: false,
        object: false,
    };
    let function = TypeProbes { function: true, object: true, ..none };
    assert_eq!(unijs::classify(function), Ok(Tag::Function));
    let array = TypeProbes { array: true, object: true, ..none };
    assert_eq!(unijs::classify(array), Ok(Tag::Array));
    let object = TypeProbes { object: true, ..none };
    assert_eq!(unijs::classify(object), Ok(Tag::Object));
    let undefined = TypeProbes { undefined: true, object: true, ..none };
    assert_eq!(unijs::classify(undefined), Ok(Tag::Undefined));
    assert_eq!(
        unijs::classify(none),
        Err(unijs::Error::UnsupportedType)
    );
}
