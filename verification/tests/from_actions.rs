use tf_plan_format::tf::Action;
use tf_plan_format::tf::RawResourceChangeChangeAction;

#[test]
fn create() {
    let actions = vec![RawResourceChangeChangeAction::Create];
    assert_eq!(Action::from_actions(&actions), Action::Create);
}

#[test]
fn delete() {
    let actions = vec![RawResourceChangeChangeAction::Delete];
    assert_eq!(Action::from_actions(&actions), Action::Delete);
}

#[test]
fn delete_create() {
    let actions = vec![
        RawResourceChangeChangeAction::Create,
        RawResourceChangeChangeAction::Delete,
    ];
    assert_eq!(Action::from_actions(&actions), Action::DeleteCreate);
}

#[test]
fn delete_create_reversed() {
    let actions = vec![
        RawResourceChangeChangeAction::Delete,
        RawResourceChangeChangeAction::Create,
    ];
    assert_eq!(Action::from_actions(&actions), Action::DeleteCreate);
}

#[test]
fn no_op() {
    let actions = vec![RawResourceChangeChangeAction::NoOp];
    assert_eq!(Action::from_actions(&actions), Action::NoOp);
}

#[test]
fn read() {
    let actions = vec![RawResourceChangeChangeAction::Read];
    assert_eq!(Action::from_actions(&actions), Action::Read);
}

#[test]
fn update() {
    let actions = vec![RawResourceChangeChangeAction::Update];
    assert_eq!(Action::from_actions(&actions), Action::Update);
}

#[test]
fn unknown() {
    let actions = vec![];
    assert_eq!(Action::from_actions(&actions), Action::Unknown);
}

#[test]
fn unknown_pair() {
    let actions = vec![
        RawResourceChangeChangeAction::Create,
        RawResourceChangeChangeAction::Update,
    ];
    assert_eq!(Action::from_actions(&actions), Action::Unknown);
}
