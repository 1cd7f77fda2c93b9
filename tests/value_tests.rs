use circuit_core::value::{Value, ValueMap};

fn float(x: f64) -> Value {
    Value::Float(x.to_bits())
}

#[test]
fn test_value_conversions() {
    let v = Value::from(42);
    assert_eq!(v.as_int(), Some(42));
    let v = Value::from("hello");
    assert_eq!(v.as_str(), Some("hello"));
    let v = Value::from(true);
    assert_eq!(v.as_bool(), Some(true));
}

#[test]
fn accessors_answer_none_on_mismatch() {
    let v = Value::Int(5);
    assert_eq!(v.as_bool(), None);
    assert_eq!(v.as_str(), None);
    assert!(v.as_array().is_none());
    assert!(v.as_object().is_none());
    assert!(!v.is_null());
    assert!(Value::Null.is_null());
    assert_eq!(float(1.5).as_int(), None);
    assert_eq!(Value::from(7i64).as_int(), Some(7));
}

#[test]
fn equality_is_structural() {
    assert_ne!(Value::Int(5), float(5.0));
    assert_eq!(float(0.0), float(-0.0));
    assert_ne!(float(f64::NAN), float(f64::NAN));
    assert_eq!(Value::Array(vec![Value::Int(1), Value::Null]), Value::Array(vec![Value::Int(1), Value::Null]));
    assert_ne!(Value::Array(vec![Value::Int(1)]), Value::Array(vec![Value::Int(1), Value::Int(1)]));
    assert_eq!(Value::Bytes(vec![1, 2]), Value::Bytes(vec![1, 2]));
    assert_ne!(Value::Bytes(vec![1, 2]), Value::Bytes(vec![2, 1]));
}

#[test]
fn object_equality_ignores_order() {
    let mut a = ValueMap::new();
    a.insert("x".to_string(), Value::Int(1));
    a.insert("y".to_string(), Value::Bool(true));
    let mut b = ValueMap::new();
    b.insert("y".to_string(), Value::Bool(true));
    b.insert("x".to_string(), Value::Int(1));
    assert_eq!(Value::Object(a.clone()), Value::Object(b.clone()));
    b.insert("x".to_string(), Value::Int(2));
    assert_ne!(Value::Object(a), Value::Object(b));
}

#[test]
fn map_insert_replaces_in_place() {
    let mut m = ValueMap::new();
    assert!(m.is_empty());
    assert!(!m.insert("k".to_string(), Value::Int(1)));
    assert!(!m.insert("j".to_string(), Value::Int(2)));
    assert!(m.insert("k".to_string(), Value::Int(3)));
    assert_eq!(m.len(), 2);
    assert_eq!(m.get("k"), Some(&Value::Int(3)));
    assert!(m.contains_key("j"));
    assert!(!m.contains_key("z"));
    assert_eq!(m.keys(), vec!["k", "j"]);
}

#[test]
fn clone_is_deep() {
    let mut inner = ValueMap::new();
    inner.insert("n".to_string(), Value::Array(vec![float(2.5), Value::String("s".to_string())]));
    let v = Value::Object(inner);
    let copy = v.clone();
    assert_eq!(v, copy);
}
