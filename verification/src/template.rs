//! Rendering of classified plan data into text reports: the engine choice,
//! the per-action summary glyphs, and the GitHub-flavored Markdown report.

pub mod tera;

use vstd::prelude::*;

use crate::strings::str_eq;
use crate::template::tera::render_values_text;
use crate::tf::Action;
use crate::tf::Change;
use crate::tf::Data;
use crate::tf::Plan;
use crate::tf::ValueMap;
use crate::tf::ValueView;
use crate::types::Error;

verus! {

/// The template engines a report can be rendered with.
#[derive(Debug, Clone, PartialEq, Eq, Structural)]
pub enum Engine {
    Tera,
}

impl core::str::FromStr for Engine {
    type Err = Error;

    fn from_str(s: &str) -> Result<Engine, Error> {
        if str_eq(s, "tera") {
            Ok(Engine::Tera)
        } else {
            let mut m = String::new();
            m.append("Invalid template engine: ");
            m.append(s);
            Err(Error::default(m))
        }
    }
}

/// The glyph that summarizes one consolidated action.
pub open spec fn action_icon(a: Action) -> Seq<char> {
    match a {
        Action::Create => seq!['\u{2705}'],
        Action::Delete => seq!['\u{274c}'],
        Action::DeleteCreate => seq!['\u{267b}', '\u{fe0f}'],
        Action::Update => seq!['\u{1f504}'],
        Action::NoOp => seq!['\u{1f7f0}'],
        Action::Read => seq!['\u{1f50d}'],
        Action::Unknown => seq!['\u{2753}'],
    }
}

/// The glyphs of a list of actions, in order, with nothing between them.
pub open spec fn action_icons(actions: Seq<Action>) -> Seq<char>
    decreases actions.len(),
{
    if actions.len() == 0 {
        Seq::empty()
    } else {
        action_icons(actions.drop_last()) + action_icon(actions.last())
    }
}

/// Renders one action as its summary glyph.
pub fn render_action(action: &Action) -> (r: String)
    ensures
        r@ == action_icon(*action),
{
    proof {
        reveal_strlit("\u{2705}");
        reveal_strlit("\u{274c}");
        reveal_strlit("\u{267b}\u{fe0f}");
        reveal_strlit("\u{1f504}");
        reveal_strlit("\u{1f7f0}");
        reveal_strlit("\u{1f50d}");
        reveal_strlit("\u{2753}");
    }
    let r = match action {
        Action::Create => String::from_str("\u{2705}"),
        Action::Delete => String::from_str("\u{274c}"),
        Action::DeleteCreate => String::from_str("\u{267b}\u{fe0f}"),
        Action::Update => String::from_str("\u{1f504}"),
        Action::NoOp => String::from_str("\u{1f7f0}"),
        Action::Read => String::from_str("\u{1f50d}"),
        Action::Unknown => String::from_str("\u{2753}"),
    };
    proof {
        assert(r@ =~= action_icon(*action));
    }
    r
}

/// Renders a list of actions as their glyphs run together.
pub fn render_actions(actions: &Vec<Action>) -> (r: String)
    ensures
        r@ == action_icons(actions@),
{
    let mut out = String::new();
    let mut i: usize = 0;
    proof {
        assert(out@ =~= action_icons(actions@.take(0)));
    }
    while i < actions.len()
        invariant
            i <= actions@.len(),
            out@ == action_icons(actions@.take(i as int)),
        decreases actions@.len() - i,
    {
        let icon = render_action(&actions[i]);
        out.append(icon.as_str());
        proof {
            assert(actions@.take(i as int + 1).drop_last() =~= actions@.take(i as int));
            assert(actions@.take(i as int + 1).last() == actions@[i as int]);
            assert(out@ =~= action_icons(actions@.take(i as int + 1)));
        }
        i = i + 1;
    }
    proof {
        assert(actions@.take(actions@.len() as int) =~= actions@);
    }
    out
}

/// The entry sequence an owned optional snapshot stands for.
pub open spec fn opt_map_entries(o: Option<ValueMap>) -> Option<Seq<(Seq<char>, ValueView)>> {
    match o {
        Option::Some(m) => Option::Some(m@),
        Option::None => Option::None,
    }
}

/// Both snapshots of a change are well-formed where present.
pub open spec fn change_maps_wf(c: Change) -> bool {
    crate::tf::opt_map_wf(c.before) && crate::tf::opt_map_wf(c.after)
}

/// Every change of the plan has well-formed snapshots.
pub open spec fn plan_maps_wf(p: Plan) -> bool {
    forall|i: int| 0 <= i < p.changes@.len() ==> change_maps_wf(#[trigger] p.changes@[i])
}

/// The Markdown block for one resource change: a collapsible section headed
/// by the change's glyph and address, holding the diff of its snapshots in a
/// code fence.
pub open spec fn change_block(c: Change, show: bool) -> Seq<char> {
    "\n<details>\n<summary>"@ + action_icon(c.action) + c.address@ + "\n</summary>\n\n```\n"@
        + render_values_text(opt_map_entries(c.before), opt_map_entries(c.after), show)
        + "\n```\n\n</details>"@
}

/// The Markdown blocks of a plan's changes, in order.
pub open spec fn changes_blocks(changes: Seq<Change>, show: bool) -> Seq<char>
    decreases changes.len(),
{
    if changes.len() == 0 {
        Seq::empty()
    } else {
        changes_blocks(changes.drop_last(), show) + change_block(changes.last(), show)
    }
}

/// The Markdown section for one plan: a collapsible section headed by the
/// plan's summary glyphs and its source path, holding one block per change,
/// or a note that the plan changes no resources.
pub open spec fn plan_text(key: Seq<char>, p: Plan, show: bool) -> Seq<char> {
    "<details>\n<summary>"@ + action_icons(p.unique_actions@) + key + "</summary>"@ + (if p.changes@.len() == 0 {
        "\nNo resource changes"@
    } else {
        changes_blocks(p.changes@, show)
    }) + "\n</details>\n"@
}

/// The full Markdown report: one section per plan, in path order.
pub open spec fn github_markdown(plans: Seq<(Seq<char>, Plan)>, show: bool) -> Seq<char>
    decreases plans.len(),
{
    if plans.len() == 0 {
        Seq::empty()
    } else {
        github_markdown(plans.drop_last(), show) + plan_text(
            plans.last().0,
            plans.last().1,
            show,
        )
    }
}

fn render_change_block(c: &Change, show_changed_values: bool) -> (r: String)
    requires
        change_maps_wf(*c),
    ensures
        r@ == change_block(*c, show_changed_values),
{
    let mut out = String::from_str("\n<details>\n<summary>");
    let icon = render_action(&c.action);
    out.append(icon.as_str());
    out.append(c.address.as_str());
    out.append("\n</summary>\n\n```\n");
    let before = match &c.before {
        Some(m) => Some(m),
        None => None,
    };
    let after = match &c.after {
        Some(m) => Some(m),
        None => None,
    };
    let diff = crate::template::tera::render_values(before, after, show_changed_values);
    out.append(diff.as_str());
    out.append("\n```\n\n</details>");
    out
}

fn render_plan_text(key: &str, p: &Plan, show_changed_values: bool) -> (r: String)
    requires
        plan_maps_wf(*p),
    ensures
        r@ == plan_text(key@, *p, show_changed_values),
{
    let mut out = String::from_str("<details>\n<summary>");
    let icons = render_actions(&p.unique_actions);
    out.append(icons.as_str());
    out.append(key);
    out.append("</summary>");
    if p.changes.len() == 0 {
        out.append("\nNo resource changes");
    } else {
        let mut i: usize = 0;
        let ghost head = out@;
        while i < p.changes.len()
            invariant
                i <= p.changes@.len(),
                forall|t: int|
                    0 <= t < p.changes@.len() ==> change_maps_wf(#[trigger] p.changes@[t]),
                out@ == head + changes_blocks(p.changes@.take(i as int), show_changed_values),
            decreases p.changes@.len() - i,
        {
            let block = render_change_block(&p.changes[i], show_changed_values);
            out.append(block.as_str());
            proof {
                assert(p.changes@.take(i as int + 1).drop_last() =~= p.changes@.take(i as int));
                assert(p.changes@.take(i as int + 1).last() == p.changes@[i as int]);
                assert(out@ =~= head + changes_blocks(
                    p.changes@.take(i as int + 1),
                    show_changed_values,
                ));
            }
            i = i + 1;
        }
        proof {
            assert(p.changes@.take(p.changes@.len() as int) =~= p.changes@);
        }
    }
    out.append("\n</details>\n");
    proof {
        assert(out@ =~= plan_text(key@, *p, show_changed_values));
    }
    out
}

/// Renders the whole report as GitHub-flavored Markdown: one collapsible
/// section per plan in path order, each change's diff in a code fence, with
/// unchanged values shown or hidden as asked. Rendering never fails.
pub fn render_github(data: &Data, show_changed_values: bool) -> (r: Result<String, Error>)
    requires
        forall|i: int| 0 <= i < data@.len() ==> plan_maps_wf((#[trigger] data@[i]).1),
    ensures
        match r {
            Ok(s) => s@ == github_markdown(data@, show_changed_values),
            Err(_) => false,
        },
{
    let ghost pvs = data@;
    proof {
        crate::tf::lemma_plan_entry_views(data.plans@);
    }
    let mut out = String::new();
    let mut i: usize = 0;
    proof {
        assert(out@ =~= github_markdown(pvs.take(0), show_changed_values));
    }
    while i < data.plans.len()
        invariant
            i <= data.plans@.len(),
            pvs == crate::tf::plan_entry_views(data.plans@),
            pvs.len() == data.plans@.len(),
            forall|t: int|
                0 <= t < pvs.len() ==> #[trigger] pvs[t] == (
                data.plans@[t].0@,
                data.plans@[t].1,
                ),
            forall|t: int| 0 <= t < pvs.len() ==> plan_maps_wf((#[trigger] pvs[t]).1),
            out@ == github_markdown(pvs.take(i as int), show_changed_values),
        decreases data.plans@.len() - i,
    {
        proof {
            assert(pvs[i as int].1 == data.plans@[i as int].1);
            assert(plan_maps_wf(data.plans@[i as int].1));
        }
        let section = render_plan_text(
            data.plans[i].0.as_str(),
            &data.plans[i].1,
            show_changed_values,
        );
        out.append(section.as_str());
        proof {
            assert(pvs.take(i as int + 1).drop_last() =~= pvs.take(i as int));
            assert(pvs.take(i as int + 1).last() == pvs[i as int]);
            assert(out@ =~= github_markdown(pvs.take(i as int + 1), show_changed_values));
        }
        i = i + 1;
    }
    proof {
        assert(pvs.take(pvs.len() as int) =~= pvs);
    }
    Ok(out)
}

} // verus!
