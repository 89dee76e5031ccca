use tf_plan_format::template::render_github;
use tf_plan_format::tf::Action;
use tf_plan_format::tf::Data;
use tf_plan_format::tf::Plan;
use tf_plan_format::tf::RawPlan;
use tf_plan_format::tf::RawResourceChange;
use tf_plan_format::tf::RawResourceChangeChange;
use tf_plan_format::tf::RawResourceChangeChangeAction;
use tf_plan_format::tf::Value;
use tf_plan_format::tf::ValueMap;

fn raw_change(
    address: &str,
    actions: Vec<RawResourceChangeChangeAction>,
    before: Option<ValueMap>,
    after: Option<ValueMap>,
) -> RawResourceChange {
    RawResourceChange {
        address: address.to_string(),
        name: address.to_string(),
        change: RawResourceChangeChange {
            actions,
            before,
            after,
            before_sensitive: None,
            after_sensitive: None,
        },
    }
}

#[test]
fn unique_actions_aggregation() {
    let raw = RawPlan {
        resource_changes: Some(vec![
            raw_change("one", vec![RawResourceChangeChangeAction::Create], None, None),
            raw_change("two", vec![RawResourceChangeChangeAction::Delete], None, None),
            raw_change("three", vec![RawResourceChangeChangeAction::Create], None, None),
        ]),
    };
    let plan = Plan::from_raw(raw);
    assert_eq!(plan.unique_actions, vec![Action::Create, Action::Delete]);
}

#[test]
fn unique_actions_empty_plan() {
    let plan = Plan::from_raw(RawPlan { resource_changes: None });
    assert_eq!(plan.changes.len(), 0);
    assert_eq!(plan.unique_actions, vec![]);
}

#[test]
fn unique_actions_fixed_order() {
    let raw = RawPlan {
        resource_changes: Some(vec![
            raw_change("one", vec![RawResourceChangeChangeAction::NoOp], None, None),
            raw_change(
                "two",
                vec![
                    RawResourceChangeChangeAction::Delete,
                    RawResourceChangeChangeAction::Create,
                ],
                None,
                None,
            ),
            raw_change("three", vec![RawResourceChangeChangeAction::Update], None, None),
        ]),
    };
    let plan = Plan::from_raw(raw);
    assert_eq!(
        plan.unique_actions,
        vec![Action::DeleteCreate, Action::Update, Action::NoOp]
    );
}

#[test]
fn github_markdown_single_change() {
    let mut before = ValueMap::new();
    before.insert("key".to_string(), Value::Integer(42));
    let mut after = ValueMap::new();
    after.insert("key".to_string(), Value::Integer(43));
    let raw = RawPlan {
        resource_changes: Some(vec![raw_change(
            "address",
            vec![RawResourceChangeChangeAction::Update],
            Some(before),
            Some(after),
        )]),
    };
    let plan = Plan::from_raw(raw);
    let mut data = Data::new();
    data.insert("plans/a.json".to_string(), plan);

    let result = render_github(&data, true).unwrap();
    let expected = "<details>\n<summary>\u{1f504}plans/a.json</summary>\n<details>\n<summary>\u{1f504}address\n</summary>\n\n```\nkey: 42 -> 43\n```\n\n</details>\n</details>\n";
    assert_eq!(result, expected);
}

#[test]
fn github_markdown_no_changes() {
    let plan = Plan::from_raw(RawPlan { resource_changes: Some(vec![]) });
    let mut data = Data::new();
    data.insert("plans/empty.json".to_string(), plan);

    let result = render_github(&data, true).unwrap();
    let expected =
        "<details>\n<summary>plans/empty.json</summary>\nNo resource changes\n</details>\n";
    assert_eq!(result, expected);
}

#[test]
fn github_markdown_plans_sorted_by_path() {
    let plan_b = Plan::from_raw(RawPlan { resource_changes: Some(vec![]) });
    let plan_a = Plan::from_raw(RawPlan { resource_changes: Some(vec![]) });
    let mut data = Data::new();
    data.insert("b.json".to_string(), plan_b);
    data.insert("a.json".to_string(), plan_a);

    let result = render_github(&data, true).unwrap();
    let a_at = result.find("a.json").unwrap();
    let b_at = result.find("b.json").unwrap();
    assert_eq!(a_at < b_at, true);
}
