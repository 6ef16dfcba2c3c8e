use bytes::Bytes;
use form_data::MultipartContent;
use form_data::NamePart;
use form_data::Value;
use form_data::consolidate;

fn key(k: &str) -> NamePart {
    NamePart::Mapping(k.to_string())
}

fn map(entries: Vec<(&str, Value)>) -> Value {
    Value::Mapping(entries.into_iter().map(|(k, v)| (k.to_string(), v)).collect())
}

#[test]
fn maps_union_by_key() {
    let a = map(vec![("x", Value::Int(1))]);
    let b = map(vec![("y", Value::Int(2))]);
    assert_eq!(
        a.merge(b),
        map(vec![("x", Value::Int(1)), ("y", Value::Int(2))])
    );
}

#[test]
fn colliding_keys_merge_recursively() {
    let a = map(vec![("x", map(vec![("inner", Value::Int(1))]))]);
    let b = map(vec![("x", map(vec![("other", Value::Int(2))]))]);
    assert_eq!(
        a.merge(b),
        map(vec![(
            "x",
            map(vec![("inner", Value::Int(1)), ("other", Value::Int(2))])
        )])
    );
}

#[test]
fn arrays_append_in_arrival_order() {
    let a = Value::Array(vec![Value::Int(1)]);
    let b = Value::Array(vec![Value::Int(2), Value::Int(3)]);
    assert_eq!(
        a.merge(b),
        Value::Array(vec![Value::Int(1), Value::Int(2), Value::Int(3)])
    );
}

#[test]
fn mismatched_shapes_are_silently_dropped() {
    // An array merged over an existing map leaves the map unchanged and
    // raises no error: the current behavior, asserted as such.
    let a = map(vec![("x", Value::Int(1))]);
    let b = Value::Array(vec![Value::Int(2)]);
    assert_eq!(a.merge(b), map(vec![("x", Value::Int(1))]));

    let a = Value::Array(vec![Value::Int(1)]);
    let b = map(vec![("x", Value::Int(2))]);
    assert_eq!(a.merge(b), Value::Array(vec![Value::Int(1)]));

    let a = Value::Text("keep".to_string());
    let b = Value::Text("drop".to_string());
    assert_eq!(a.merge(b), Value::Text("keep".to_string()));
}

#[test]
fn consolidate_wraps_each_leaf_along_its_path() {
    let mf = vec![
        (
            vec![key("a"), key("b")],
            MultipartContent::Text("deep".to_string()),
        ),
        (
            vec![key("list"), NamePart::Array],
            MultipartContent::Int(1),
        ),
        (
            vec![key("list"), NamePart::Array],
            MultipartContent::Int(2),
        ),
    ];
    let v = consolidate(mf);
    assert_eq!(
        v,
        map(vec![
            ("a", map(vec![("b", Value::Text("deep".to_string()))])),
            ("list", Value::Array(vec![Value::Int(1), Value::Int(2)])),
        ])
    );
}

#[test]
fn consolidate_of_nothing_is_an_empty_map() {
    assert_eq!(consolidate(Vec::new()), Value::Mapping(Vec::new()));
}

#[test]
fn mismatched_consolidation_drops_the_later_field() {
    // A map already sits under `x`; an array result under the same path
    // is dropped without error.
    let mf = vec![
        (vec![key("x"), key("k")], MultipartContent::Int(1)),
        (
            vec![key("x"), NamePart::Array],
            MultipartContent::Bytes(Bytes::copy_from_slice(b"zz")),
        ),
    ];
    let v = consolidate(mf);
    assert_eq!(v, map(vec![("x", map(vec![("k", Value::Int(1))]))]));
}
