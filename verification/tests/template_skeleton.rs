//! Renders the report template with the tera engine itself, with stubbed-out
//! helper functions, and checks that the library's directly assembled report
//! has exactly the same skeleton around those helpers' output.

use std::collections::HashMap;

const TEMPLATE: &str = "
{%- for plan_key, plan in data.plans %}<details>
<summary>{{ render_actions(actions=plan.unique_actions) }}{{ plan_key }}</summary>
{%- if not plan.changes %}
No resource changes
{%- else %}
{%- for change in plan.changes %}
<details>
<summary>{{ render_action(action=change.action) }}{{ change.address }}
</summary>

```
{{ render_values(before=change.before, after=change.after, show_changed_values=options.show_changed_values) }}
```

</details>
{%- endfor %}
{%- endif %}
</details>
{% endfor %}";

fn json_str(s: &str) -> tera::Value {
    tera::Value::String(s.to_string())
}

fn change_object(address: &str) -> tera::Value {
    let mut change = serde_json::Map::new();
    change.insert("action".to_string(), json_str("x"));
    change.insert("address".to_string(), json_str(address));
    change.insert("before".to_string(), tera::Value::Null);
    change.insert("after".to_string(), tera::Value::Null);
    tera::Value::Object(change)
}

fn plan_object(changes: Vec<tera::Value>) -> tera::Value {
    let mut plan = serde_json::Map::new();
    plan.insert("changes".to_string(), tera::Value::Array(changes));
    plan.insert("unique_actions".to_string(), tera::Value::Array(vec![]));
    tera::Value::Object(plan)
}

#[test]
fn tera_expands_to_the_same_skeleton() {
    let mut engine = tera::Tera::default();
    engine.register_function(
        "render_actions",
        |_: &HashMap<String, tera::Value>| Ok(json_str("ICONS")),
    );
    engine.register_function(
        "render_action",
        |_: &HashMap<String, tera::Value>| Ok(json_str("ICON")),
    );
    engine.register_function(
        "render_values",
        |_: &HashMap<String, tera::Value>| Ok(json_str("DIFF")),
    );
    engine.add_raw_template("template", TEMPLATE).unwrap();

    let mut plans = serde_json::Map::new();
    plans.insert("a.json".to_string(), plan_object(vec![]));
    plans.insert(
        "b.json".to_string(),
        plan_object(vec![change_object("addr1"), change_object("addr2")]),
    );
    let mut data = serde_json::Map::new();
    data.insert("plans".to_string(), tera::Value::Object(plans));
    let mut options = serde_json::Map::new();
    options.insert("show_changed_values".to_string(), tera::Value::Bool(true));

    let mut context = tera::Context::new();
    context.insert("data", &tera::Value::Object(data));
    context.insert("options", &tera::Value::Object(options));

    let rendered = engine.render("template", &context).unwrap();

    let expected = "<details>\n<summary>ICONSa.json</summary>\nNo resource changes\n</details>\n\
<details>\n<summary>ICONSb.json</summary>\
\n<details>\n<summary>ICONaddr1\n</summary>\n\n```\nDIFF\n```\n\n</details>\
\n<details>\n<summary>ICONaddr2\n</summary>\n\n```\nDIFF\n```\n\n</details>\
\n</details>\n";
    assert_eq!(rendered, expected);
}
