use tf_plan_format::template::tera::render_values;
use tf_plan_format::tf::Value;
use tf_plan_format::tf::ValueMap;

fn get_test_data() -> ValueMap {
    let mut map = ValueMap::new();
    map.insert("string".to_string(), Value::String("string".to_string()));
    map.insert("integer".to_string(), Value::Integer(42));
    map.insert("float".to_string(), Value::Float("42.1".to_string()));
    map.insert("bool".to_string(), Value::Boolean(true));
    map.insert("array".to_string(), Value::Array(vec![Value::Integer(42)]));
    map.insert("object".to_string(), {
        let mut inner = ValueMap::new();
        inner.insert("inner_integer".to_string(), Value::Integer(42));
        Value::Object(inner)
    });
    map.insert("object_to_null".to_string(), {
        let mut inner = ValueMap::new();
        inner.insert("inner_integer".to_string(), Value::Integer(42));
        Value::Object(inner)
    });
    map.insert("null_to_object".to_string(), Value::Null);
    map.insert("null".to_string(), Value::Null);
    map
}

fn get_another_test_data() -> ValueMap {
    let mut map = ValueMap::new();
    map.insert(
        "string".to_string(),
        Value::String("another string".to_string()),
    );
    map.insert("integer".to_string(), Value::Integer(43));
    map.insert("float".to_string(), Value::Float("43.1".to_string()));
    map.insert("bool".to_string(), Value::Boolean(false));
    map.insert("array".to_string(), Value::Array(vec![Value::Integer(43)]));
    map.insert("object".to_string(), {
        let mut inner = ValueMap::new();
        inner.insert("inner_integer".to_string(), Value::Integer(43));
        Value::Object(inner)
    });
    map.insert("object_to_null".to_string(), Value::Null);
    map.insert("null_to_object".to_string(), {
        let mut inner = ValueMap::new();
        inner.insert("inner_integer".to_string(), Value::Integer(43));
        Value::Object(inner)
    });
    map.insert("null".to_string(), Value::Null);
    map
}

#[test]
fn before_after() {
    let before = get_test_data();
    let after = get_another_test_data();
    let result = render_values(Some(&before), Some(&after), true);

    let expected = r#"array: [42] -> [43]
bool: true -> false
float: 42.1 -> 43.1
integer: 42 -> 43
null: null
null_to_object:
  inner_integer: 43
object:
  inner_integer: 42 -> 43
object_to_null:
  inner_integer: 42
string: "string" -> "another string""#;
    assert_eq!(result, expected);
}

#[test]
fn before() {
    let data = get_test_data();
    let result = render_values(Some(&data), None, true);

    let expected = r#"array: [42]
bool: true
float: 42.1
integer: 42
null: null
null_to_object: null
object:
  inner_integer: 42
object_to_null:
  inner_integer: 42
string: "string""#;
    assert_eq!(result, expected);
}

#[test]
fn after() {
    let data = get_test_data();
    let result = render_values(None, Some(&data), true);

    let expected = r#"array: [42]
bool: true
float: 42.1
integer: 42
null: null
null_to_object: null
object:
  inner_integer: 42
object_to_null:
  inner_integer: 42
string: "string""#;
    assert_eq!(result, expected);
}

#[test]
fn none() {
    let result = render_values(None, None, true);
    assert_eq!(result, "");
}

#[test]
fn scenario_changed_leaf() {
    let mut before = ValueMap::new();
    before.insert("key".to_string(), Value::Integer(42));
    let mut after = ValueMap::new();
    after.insert("key".to_string(), Value::Integer(43));
    let result = render_values(Some(&before), Some(&after), true);
    assert_eq!(result, "key: 42 -> 43");
}

#[test]
fn scenario_added_leaf() {
    let before = ValueMap::new();
    let mut after = ValueMap::new();
    after.insert("key".to_string(), Value::Integer(42));
    let result = render_values(Some(&before), Some(&after), true);
    assert_eq!(result, "key: null -> 42");
}

#[test]
fn scenario_nested_change() {
    let mut before = ValueMap::new();
    before.insert("obj".to_string(), {
        let mut inner = ValueMap::new();
        inner.insert("a".to_string(), Value::Integer(1));
        Value::Object(inner)
    });
    let mut after = ValueMap::new();
    after.insert("obj".to_string(), {
        let mut inner = ValueMap::new();
        inner.insert("a".to_string(), Value::Integer(2));
        Value::Object(inner)
    });
    let result = render_values(Some(&before), Some(&after), true);
    assert_eq!(result, "obj:\n  a: 1 -> 2");
}

#[test]
fn scenario_masked_unchanged() {
    let mut raw = ValueMap::new();
    raw.insert("key".to_string(), Value::String("secret".to_string()));
    let mask = tf_plan_format::tf::BoolValue::Object(vec![(
        "key".to_string(),
        tf_plan_format::tf::BoolValue::Boolean(true),
    )]);
    let masked = tf_plan_format::tf::mask_sensitive_map(&raw, &mask);

    let mut expected_map = ValueMap::new();
    expected_map.insert("key".to_string(), Value::Sensitive);
    assert_eq!(masked, expected_map);

    let result = render_values(Some(&masked), Some(&masked), true);
    assert_eq!(result, "key: sensitive");
}

#[test]
fn equal_maps_listed_without_arrows() {
    let data = get_test_data();
    let diffed = render_values(Some(&data), Some(&data), true);
    let listed = render_values(Some(&data), None, true);
    assert_eq!(diffed, listed);
    assert_eq!(diffed.contains("->"), false);
}

#[test]
fn equal_scalar_maps_hidden_when_asked() {
    let mut map = ValueMap::new();
    map.insert("a".to_string(), Value::Integer(1));
    map.insert("b".to_string(), Value::String("x".to_string()));
    let result = render_values(Some(&map), Some(&map), false);
    assert_eq!(result, "");
}

#[test]
fn insertion_order_does_not_matter() {
    let mut m1 = ValueMap::new();
    m1.insert("b".to_string(), Value::Integer(2));
    m1.insert("a".to_string(), Value::Integer(1));
    let mut m2 = ValueMap::new();
    m2.insert("a".to_string(), Value::Integer(1));
    m2.insert("b".to_string(), Value::Integer(2));
    assert_eq!(m1, m2);
    assert_eq!(
        render_values(Some(&m1), None, true),
        render_values(Some(&m2), None, true)
    );
}

#[test]
fn insert_replaces_existing_key() {
    let mut m = ValueMap::new();
    m.insert("a".to_string(), Value::Integer(1));
    m.insert("a".to_string(), Value::Integer(2));
    let result = render_values(Some(&m), None, true);
    assert_eq!(result, "a: 2");
}

#[test]
fn absent_side_renders_alike() {
    let data = get_test_data();
    assert_eq!(
        render_values(Some(&data), None, true),
        render_values(None, Some(&data), true)
    );
}
