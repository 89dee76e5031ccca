use tf_plan_format::template::render_action;
use tf_plan_format::template::render_actions;
use tf_plan_format::template::tera::render_plaintext;
use tf_plan_format::tf::Action;
use tf_plan_format::tf::Value;
use tf_plan_format::tf::ValueMap;

#[test]
fn options() {
    assert_eq!(render_action(&Action::Create), "\u{2705}");
    assert_eq!(render_action(&Action::Delete), "\u{274c}");
    assert_eq!(render_action(&Action::DeleteCreate), "\u{267b}\u{fe0f}");
    assert_eq!(render_action(&Action::Update), "\u{1f504}");
    assert_eq!(render_action(&Action::NoOp), "\u{1f7f0}");
    assert_eq!(render_action(&Action::Read), "\u{1f50d}");
    assert_eq!(render_action(&Action::Unknown), "\u{2753}");
}

#[test]
fn tera_default() {
    let actions = vec![
        Action::Create,
        Action::Delete,
        Action::DeleteCreate,
        Action::Update,
        Action::NoOp,
        Action::Read,
        Action::Unknown,
    ];
    assert_eq!(
        render_actions(&actions),
        "\u{2705}\u{274c}\u{267b}\u{fe0f}\u{1f504}\u{1f7f0}\u{1f50d}\u{2753}"
    );
}

#[test]
fn no_actions() {
    let actions = vec![];
    assert_eq!(render_actions(&actions), "");
}

#[test]
fn plaintext_scalars() {
    assert_eq!(render_plaintext(&Value::Integer(0)), "0");
    assert_eq!(render_plaintext(&Value::Integer(-37)), "-37");
    assert_eq!(
        render_plaintext(&Value::Integer(i64::MIN)),
        "-9223372036854775808"
    );
    assert_eq!(
        render_plaintext(&Value::Integer(i64::MAX)),
        "9223372036854775807"
    );
    assert_eq!(render_plaintext(&Value::Boolean(true)), "true");
    assert_eq!(render_plaintext(&Value::Boolean(false)), "false");
    assert_eq!(render_plaintext(&Value::Null), "null");
    assert_eq!(render_plaintext(&Value::Sensitive), "sensitive");
    assert_eq!(render_plaintext(&Value::Float("42.1".to_string())), "42.1");
    assert_eq!(
        render_plaintext(&Value::String("plain".to_string())),
        "\"plain\""
    );
}

#[test]
fn plaintext_escapes() {
    assert_eq!(
        render_plaintext(&Value::String("a\"b\\c".to_string())),
        "\"a\\\"b\\\\c\""
    );
    assert_eq!(
        render_plaintext(&Value::String("line\nbreak\ttab".to_string())),
        "\"line\\nbreak\\ttab\""
    );
    assert_eq!(
        render_plaintext(&Value::String("bell\u{7}".to_string())),
        "\"bell\\u0007\""
    );
}

#[test]
fn plaintext_containers() {
    let value = Value::Array(vec![
        Value::Integer(1),
        Value::String("two".to_string()),
        Value::Array(vec![Value::Null]),
    ]);
    assert_eq!(render_plaintext(&value), "[1, \"two\", [null]]");

    let mut inner = ValueMap::new();
    inner.insert("b".to_string(), Value::Integer(2));
    inner.insert("a".to_string(), Value::Integer(1));
    let value = Value::Array(vec![Value::Object(inner)]);
    assert_eq!(render_plaintext(&value), "[{\"a\": 1, \"b\": 2}]");
}

#[test]
fn error_display() {
    let error = tf_plan_format::types::Error::default("message".to_string());
    assert_eq!("message", error.message());
}

#[test]
fn chain() {
    let source = tf_plan_format::types::Error::default("source".to_string());
    let error = tf_plan_format::types::Error::chain("message".to_string(), source);
    assert_eq!("message. source", error.full_message());
}

#[test]
fn chain_multiple() {
    let grandparent = tf_plan_format::types::Error::default("grandparent".to_string());
    let parent = tf_plan_format::types::Error::chain("parent".to_string(), grandparent);
    let error = tf_plan_format::types::Error::chain("child".to_string(), parent);

    assert_eq!("child. parent. grandparent", error.full_message());
}

#[test]
fn command() {
    let source = tf_plan_format::types::Error::default("source".to_string());
    let error = tf_plan_format::types::Error::command("message".to_string(), 1, source);
    assert_eq!("message. source", error.full_message());
}
