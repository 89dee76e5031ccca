use tf_plan_format::tf::Action;

#[test]
fn tf_create() {
    assert_eq!(
        Action::from_strings(&vec!["create".to_string()]).unwrap(),
        Action::Create
    );
}

#[test]
fn tf_delete() {
    assert_eq!(
        Action::from_strings(&vec!["delete".to_string()]).unwrap(),
        Action::Delete
    );
}

#[test]
fn tf_delete_create() {
    assert_eq!(
        Action::from_strings(&vec!["create".to_string(), "delete".to_string()]).unwrap(),
        Action::DeleteCreate
    );
}

#[test]
fn tf_no_op() {
    assert_eq!(
        Action::from_strings(&vec!["no-op".to_string()]).unwrap(),
        Action::NoOp
    );
}

#[test]
fn tf_read() {
    assert_eq!(
        Action::from_strings(&vec!["read".to_string()]).unwrap(),
        Action::Read
    );
}

#[test]
fn tf_update() {
    assert_eq!(
        Action::from_strings(&vec!["update".to_string()]).unwrap(),
        Action::Update
    );
}

#[test]
fn tf_unknown() {
    assert_eq!(Action::from_strings(&vec![]).unwrap(), Action::Unknown);
}

#[test]
fn tf_invalid() {
    let action = Action::from_strings(&vec!["invalid".to_string()]);
    assert_eq!(
        action.unwrap_err().message(),
        "Failed to parse action(invalid)"
    );
}

#[test]
fn tf_invalid_second() {
    let action = Action::from_strings(&vec!["create".to_string(), "later".to_string()]);
    assert_eq!(
        action.unwrap_err().message(),
        "Failed to parse action(later)"
    );
}
