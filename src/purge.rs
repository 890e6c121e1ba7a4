//! Dropping the history of every entry of a tree.

use vstd::prelude::*;
use crate::entry::{Entry, EntryView};
use crate::group::{group_entries, listed_view, location_view, Group, GroupRefView, GroupView, Node, NodeLocation, NodeView};
use crate::text::opt_string_copy;
use crate::value::Structured;

verus! {

broadcast use vstd::std_specs::vec::group_vec_axioms, vstd::seq::group_seq_axioms;

/// The tree with every entry's history dropped.
pub open spec fn purged(g: GroupView) -> GroupView
    decreases g,
{
    GroupView {
        children: Seq::new(
            g.children.len(),
            |i: int|
                if 0 <= i < g.children.len() {
                    match g.children[i] {
                        NodeView::Entry(x) => NodeView::Entry(EntryView { history: None, ..x }),
                        NodeView::Group(h) => NodeView::Group(purged(h)),
                    }
                } else {
                    NodeView::Entry(EntryView::arbitrary_view())
                },
        ),
        ..g
    }
}

/// For each listed entry with a non-empty history, in order: its uuid and
/// the number of snapshots.
pub open spec fn purge_report(s: Seq<(EntryView, Seq<GroupRefView>)>) -> Seq<(u128, int)>
    decreases s.len(),
{
    if s.len() == 0 {
        Seq::empty()
    } else {
        let e = s.last().0;
        let rest = purge_report(s.drop_last());
        if e.history_or_empty().len() > 0 {
            rest.push((e.uuid, e.history_or_empty().len() as int))
        } else {
            rest
        }
    }
}

pub open spec fn report_view(v: Seq<(u128, usize)>) -> Seq<(u128, int)> {
    Seq::new(v.len(), |i: int| (v[i].0, v[i].1 as int))
}

fn purged_copy(g: &Group) -> (r: Group)
    ensures
        r@ == purged(g@),
        r.parent == g.parent,
    decreases g,
{
    let mut children: Vec<Node> = Vec::new();
    let mut i: usize = 0;
    while i < g.children.len()
        invariant
            0 <= i <= g.children@.len(),
            children@.len() == i,
            forall|j: int| 0 <= j < i ==> (#[trigger] children@[j])@ == purged(g@).children[j],
        decreases g.children.len() - i,
    {
        assert(g@.children[i as int] == g.children@[i as int]@);
        let c = match &g.children[i] {
            Node::Entry(e) => {
                let mut e2 = e.duplicate();
                e2.parent = e.parent;
                e2.purge_history();
                Node::Entry(e2)
            },
            Node::Group(h) => {
                proof {
                    assert(decreases_to!(g.children => g.children@));
                    assert(decreases_to!(*g => g.children@[i as int]));
                }
                Node::Group(purged_copy(h))
            },
        };
        children.push(c);
        i += 1;
    }
    let r = Group {
        uuid: g.uuid,
        name: opt_string_copy(&g.name),
        notes: opt_string_copy(&g.notes),
        icon_id: g.icon_id,
        custom_icon_uuid: g.custom_icon_uuid,
        children,
        times: g.times,
        custom_data: g.custom_data.duplicate(),
        is_expanded: g.is_expanded,
        default_autotype_sequence: opt_string_copy(&g.default_autotype_sequence),
        enable_autotype: opt_string_copy(&g.enable_autotype),
        enable_searching: opt_string_copy(&g.enable_searching),
        last_top_visible_entry: g.last_top_visible_entry,
        parent: g.parent,
    };
    assert(r@.children =~= purged(g@).children);
    r
}

/// Drops the history of every entry below `group`. Returns, for each entry
/// that had snapshots, depth first, its uuid and how many it had.
pub fn purge_history(group: &mut Group) -> (r: Vec<(u128, usize)>)
    ensures
        final(group)@ == purged(old(group)@),
        final(group).parent == old(group).parent,
        report_view(r@) == purge_report(group_entries(old(group)@, Seq::empty())),
{
    let empty: NodeLocation = Vec::new();
    assert(location_view(empty@) =~= Seq::<GroupRefView>::empty());
    let all = group.get_all_entries(&empty);
    let ghost s = listed_view(all@);
    let mut report: Vec<(u128, usize)> = Vec::new();
    let mut i: usize = 0;
    assert(report_view(report@) =~= purge_report(s.subrange(0, 0)));
    while i < all.len()
        invariant
            0 <= i <= all@.len(),
            s == listed_view(all@),
            report_view(report@) == purge_report(s.subrange(0, i as int)),
        decreases all.len() - i,
    {
        let ghost sub = s.subrange(0, i as int + 1);
        assert(sub.drop_last() =~= s.subrange(0, i as int));
        assert(sub.last().0 == all@[i as int].0@);
        let e = &all[i].0;
        match &e.history {
            Some(h) => {
                assert(e@.history_or_empty().len() == h.entries@.len());
                if h.entries.len() > 0 {
                    report.push((e.uuid, h.entries.len()));
                }
            },
            None => {},
        }
        assert(report_view(report@) =~= purge_report(sub));
        i += 1;
    }
    assert(s.subrange(0, s.len() as int) =~= s);
    let p = purged_copy(group);
    *group = p;
    report
}

} // verus!
