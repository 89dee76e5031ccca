use tf_plan_format::tf::Action;
use tf_plan_format::tf::BoolValue;
use tf_plan_format::tf::Change;
use tf_plan_format::tf::RawResourceChange;
use tf_plan_format::tf::RawResourceChangeChange;
use tf_plan_format::tf::RawResourceChangeChangeAction;
use tf_plan_format::tf::Value;
use tf_plan_format::tf::ValueMap;

fn get_raw(
    before: Option<ValueMap>,
    after: Option<ValueMap>,
    before_sensitive: Option<BoolValue>,
    after_sensitive: Option<BoolValue>,
) -> RawResourceChange {
    RawResourceChange {
        address: "address".to_string(),
        name: "name".to_string(),
        change: RawResourceChangeChange {
            actions: vec![RawResourceChangeChangeAction::Create],
            before,
            after,
            before_sensitive,
            after_sensitive,
        },
    }
}

#[test]
fn empty() {
    let raw = get_raw(None, None, None, None);
    let change = Change::from_raw(raw);

    assert_eq!(change.address, "address");
    assert_eq!(change.name, "name");
    assert_eq!(change.action, Action::Create);
    assert_eq!(change.before, None);
    assert_eq!(change.after, None);
}

#[test]
fn sesitive_before_true() {
    let mut before = ValueMap::new();
    before.insert("key".to_string(), Value::String("value".to_string()));

    let raw = get_raw(Some(before), None, Some(BoolValue::Boolean(true)), None);
    let change = Change::from_raw(raw);

    let mut expected_before = ValueMap::new();
    expected_before.insert("key".to_string(), Value::Sensitive);
    assert_eq!(change.before, Some(expected_before));
}

#[test]
fn sesitive_after_true() {
    let mut after = ValueMap::new();
    after.insert("key".to_string(), Value::String("value".to_string()));

    let raw = get_raw(None, Some(after), None, Some(BoolValue::Boolean(true)));
    let change = Change::from_raw(raw);

    let mut expected_after = ValueMap::new();
    expected_after.insert("key".to_string(), Value::Sensitive);
    assert_eq!(change.after, Some(expected_after));
}

#[test]
fn sesitive_before_false() {
    let mut before = ValueMap::new();
    before.insert("key".to_string(), Value::String("value".to_string()));

    let raw = get_raw(Some(before), None, Some(BoolValue::Boolean(false)), None);
    let change = Change::from_raw(raw);
    let mut expected_before = ValueMap::new();
    expected_before.insert("key".to_string(), Value::String("value".to_string()));

    assert_eq!(change.before, Some(expected_before));
}

#[test]
fn sesitive_after_false() {
    let mut after = ValueMap::new();
    after.insert("key".to_string(), Value::String("value".to_string()));

    let raw = get_raw(None, Some(after), None, Some(BoolValue::Boolean(false)));
    let change = Change::from_raw(raw);
    let mut expected_after = ValueMap::new();
    expected_after.insert("key".to_string(), Value::String("value".to_string()));

    assert_eq!(change.after, Some(expected_after));
}

#[test]
fn sesitive_before_key_true() {
    let mut before = ValueMap::new();
    before.insert("key".to_string(), Value::String("value".to_string()));

    let before_sensitive = vec![("key".to_string(), BoolValue::Boolean(true))];

    let raw = get_raw(
        Some(before),
        None,
        Some(BoolValue::Object(before_sensitive)),
        None,
    );
    let change = Change::from_raw(raw);

    let mut expected_before = ValueMap::new();
    expected_before.insert("key".to_string(), Value::Sensitive);
    assert_eq!(change.before, Some(expected_before));
}

#[test]
fn sesitive_after_key_true() {
    let mut after = ValueMap::new();
    after.insert("key".to_string(), Value::String("value".to_string()));

    let after_sensitive = vec![("key".to_string(), BoolValue::Boolean(true))];

    let raw = get_raw(
        None,
        Some(after),
        None,
        Some(BoolValue::Object(after_sensitive)),
    );
    let change = Change::from_raw(raw);

    let mut expected_after = ValueMap::new();
    expected_after.insert("key".to_string(), Value::Sensitive);
    assert_eq!(change.after, Some(expected_after));
}

#[test]
fn sensitive_after_array() {
    let mut after = ValueMap::new();
    after.insert(
        "key".to_string(),
        Value::Array(vec![
            Value::String("true".to_string()),
            Value::String("false".to_string()),
            Value::String("null".to_string()),
            Value::String("absent".to_string()),
        ]),
    );

    let after_sensitive = vec![(
        "key".to_string(),
        BoolValue::Array(vec![
            BoolValue::Boolean(true),
            BoolValue::Boolean(false),
            BoolValue::Null,
        ]),
    )];

    let raw = get_raw(
        None,
        Some(after),
        None,
        Some(BoolValue::Object(after_sensitive)),
    );
    let change = Change::from_raw(raw);

    let mut expected_after = ValueMap::new();
    expected_after.insert(
        "key".to_string(),
        Value::Array(vec![
            Value::Sensitive,
            Value::String("false".to_string()),
            Value::String("null".to_string()),
            Value::String("absent".to_string()),
        ]),
    );
    assert_eq!(change.after, Some(expected_after));
}

#[test]
fn sensitive_before_array() {
    let mut before = ValueMap::new();
    before.insert(
        "key".to_string(),
        Value::Array(vec![
            Value::String("true".to_string()),
            Value::String("false".to_string()),
            Value::String("null".to_string()),
            Value::String("absent".to_string()),
        ]),
    );

    let before_sensitive = vec![(
        "key".to_string(),
        BoolValue::Array(vec![
            BoolValue::Boolean(true),
            BoolValue::Boolean(false),
            BoolValue::Null,
        ]),
    )];

    let raw = get_raw(
        Some(before),
        None,
        Some(BoolValue::Object(before_sensitive)),
        None,
    );
    let change = Change::from_raw(raw);

    let mut expected_before = ValueMap::new();
    expected_before.insert(
        "key".to_string(),
        Value::Array(vec![
            Value::Sensitive,
            Value::String("false".to_string()),
            Value::String("null".to_string()),
            Value::String("absent".to_string()),
        ]),
    );
    assert_eq!(change.before, Some(expected_before));
}

#[test]
fn mask_identity_when_all_clear() {
    let mut map = ValueMap::new();
    map.insert("alpha".to_string(), Value::Integer(1));
    let mut inner = ValueMap::new();
    inner.insert("deep".to_string(), Value::Boolean(true));
    map.insert("nested".to_string(), Value::Object(inner));

    let mut expected = ValueMap::new();
    expected.insert("alpha".to_string(), Value::Integer(1));
    let mut expected_inner = ValueMap::new();
    expected_inner.insert("deep".to_string(), Value::Boolean(true));
    expected.insert("nested".to_string(), Value::Object(expected_inner));

    let masked = tf_plan_format::tf::mask_sensitive_map(&map, &BoolValue::Boolean(false));
    assert_eq!(masked, expected);
}

#[test]
fn mask_scalar_leaves_always_hidden() {
    let mask = BoolValue::Boolean(true);
    assert_eq!(
        tf_plan_format::tf::mask_sensitive(&Value::String("s".to_string()), &mask),
        Value::Sensitive
    );
    assert_eq!(
        tf_plan_format::tf::mask_sensitive(&Value::Integer(7), &mask),
        Value::Sensitive
    );
    assert_eq!(
        tf_plan_format::tf::mask_sensitive(&Value::Float("1.5".to_string()), &mask),
        Value::Sensitive
    );
    assert_eq!(
        tf_plan_format::tf::mask_sensitive(&Value::Boolean(false), &mask),
        Value::Sensitive
    );
    assert_eq!(
        tf_plan_format::tf::mask_sensitive(&Value::Null, &mask),
        Value::Null
    );
}

#[test]
fn is_sensitive_reads_only_boolean_leaves() {
    assert_eq!(tf_plan_format::tf::is_sensitive(&BoolValue::Boolean(true)), true);
    assert_eq!(tf_plan_format::tf::is_sensitive(&BoolValue::Boolean(false)), false);
    assert_eq!(tf_plan_format::tf::is_sensitive(&BoolValue::Null), false);
    assert_eq!(
        tf_plan_format::tf::is_sensitive(&BoolValue::Array(vec![BoolValue::Boolean(true)])),
        false
    );
}

#[test]
fn child_mask_lookup() {
    let mask = BoolValue::Object(vec![("key".to_string(), BoolValue::Boolean(true))]);
    assert_eq!(
        tf_plan_format::tf::get_child_sensitive(&mask, "key"),
        BoolValue::Boolean(true)
    );
    assert_eq!(
        tf_plan_format::tf::get_child_sensitive(&mask, "other"),
        BoolValue::Boolean(false)
    );
    assert_eq!(
        tf_plan_format::tf::get_child_sensitive(&BoolValue::Boolean(true), "key"),
        BoolValue::Boolean(true)
    );
    assert_eq!(
        tf_plan_format::tf::get_child_sensitive(&BoolValue::Null, "key"),
        BoolValue::Boolean(false)
    );
}

#[test]
fn mask_array_by_index() {
    let values = vec![Value::Integer(1), Value::Integer(2), Value::Integer(3)];
    let masks = vec![BoolValue::Boolean(true), BoolValue::Boolean(false)];
    assert_eq!(
        tf_plan_format::tf::mask_sensitive_array(&values, &masks),
        vec![Value::Sensitive, Value::Integer(2), Value::Integer(3)]
    );
}

#[test]
fn mask_array_inherits_scalar_verdict() {
    let mask = BoolValue::Boolean(true);
    let value = Value::Array(vec![Value::Integer(1), Value::Null]);
    assert_eq!(
        tf_plan_format::tf::mask_sensitive(&value, &mask),
        Value::Array(vec![Value::Sensitive, Value::Null])
    );
}
