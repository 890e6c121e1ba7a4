//! The tree: groups own an ordered list of child nodes, each a group or an
//! entry; every node carries a permanent uuid.

use vstd::prelude::*;
use vstd::string::StringExecFns;
use crate::entry::{CustomData, CustomDataItemView, Entry, EntryView};
use crate::iconid::IconId;
use crate::text::{opt_string_copy, opt_string_equal, opt_view};
use crate::times::Times;
use crate::value::Structured;
use crate::log::MergeError;

verus! {

broadcast use vstd::std_specs::vec::group_vec_axioms, vstd::seq::group_seq_axioms;

/// A node of the tree.
pub enum Node {
    Group(Group),
    Entry(Entry),
}

/// A container node: its own data and its ordered children.
pub struct Group {
    pub uuid: u128,
    pub name: Option<String>,
    pub notes: Option<String>,
    pub icon_id: Option<IconId>,
    pub custom_icon_uuid: Option<u128>,
    pub children: Vec<Node>,
    pub times: Times,
    pub custom_data: CustomData,
    pub is_expanded: bool,
    pub default_autotype_sequence: Option<String>,
    pub enable_autotype: Option<String>,
    pub enable_searching: Option<String>,
    pub last_top_visible_entry: Option<u128>,
    /// The uuid of the group that holds this one; not part of its content.
    pub parent: Option<u128>,
}

pub enum NodeView {
    Group(GroupView),
    Entry(EntryView),
}

/// What a group holds, children included, as compared between groups.
pub struct GroupView {
    pub uuid: u128,
    pub name: Option<Seq<char>>,
    pub notes: Option<Seq<char>>,
    pub icon_id: Option<IconId>,
    pub custom_icon_uuid: Option<u128>,
    pub children: Seq<NodeView>,
    pub times: Times,
    pub custom_data: Map<Seq<char>, CustomDataItemView>,
    pub is_expanded: bool,
    pub default_autotype_sequence: Option<Seq<char>>,
    pub enable_autotype: Option<Seq<char>>,
    pub enable_searching: Option<Seq<char>>,
    pub last_top_visible_entry: Option<u128>,
}

pub open spec fn group_view(g: Group) -> GroupView
    decreases g,
{
    GroupView {
        uuid: g.uuid,
        name: opt_view(g.name),
        notes: opt_view(g.notes),
        icon_id: g.icon_id,
        custom_icon_uuid: g.custom_icon_uuid,
        children: Seq::new(
            g.children@.len(),
            |i: int|
                if 0 <= i < g.children@.len() {
                    match g.children@[i] {
                        Node::Group(c) => NodeView::Group(group_view(c)),
                        Node::Entry(e) => NodeView::Entry(e@),
                    }
                } else {
                    NodeView::Entry(EntryView::arbitrary_view())
                },
        ),
        times: g.times,
        custom_data: g.custom_data@,
        is_expanded: g.is_expanded,
        default_autotype_sequence: opt_view(g.default_autotype_sequence),
        enable_autotype: opt_view(g.enable_autotype),
        enable_searching: opt_view(g.enable_searching),
        last_top_visible_entry: g.last_top_visible_entry,
    }
}

impl View for Group {
    type V = GroupView;

    open spec fn view(&self) -> GroupView {
        group_view(*self)
    }
}

impl View for Node {
    type V = NodeView;

    open spec fn view(&self) -> NodeView {
        match *self {
            Node::Group(g) => NodeView::Group(g@),
            Node::Entry(e) => NodeView::Entry(e@),
        }
    }
}

/// One step of a path from the root: a group's uuid and name.
pub struct GroupRef {
    pub uuid: u128,
    pub name: String,
}

pub struct GroupRefView {
    pub uuid: u128,
    pub name: Seq<char>,
}

impl View for GroupRef {
    type V = GroupRefView;

    open spec fn view(&self) -> GroupRefView {
        GroupRefView { uuid: self.uuid, name: self.name@ }
    }
}

impl GroupRef {
    pub fn new(uuid: u128, name: &str) -> (r: GroupRef)
        ensures
            r@ == (GroupRefView { uuid, name: name@ }),
    {
        GroupRef { uuid, name: name.to_owned() }
    }

    pub fn duplicate(&self) -> (r: GroupRef)
        ensures
            r@ == self@,
    {
        GroupRef { uuid: self.uuid, name: self.name.clone() }
    }
}

/// The path from a tree's root down to (and including) a group.
pub type NodeLocation = Vec<GroupRef>;

pub open spec fn location_view(l: Seq<GroupRef>) -> Seq<GroupRefView> {
    Seq::new(l.len(), |i: int| l[i]@)
}

/// The reference to a group that a path holds; a group without a name is
/// named by the empty string.
pub open spec fn ref_of(g: GroupView) -> GroupRefView {
    GroupRefView {
        uuid: g.uuid,
        name: match g.name {
            Some(n) => n,
            None => Seq::empty(),
        },
    }
}

/// Every entry below `g`, depth first in child order, each with the path
/// to the group that holds it; `loc` is the path down to `g`'s parent.
pub open spec fn group_entries(g: GroupView, loc: Seq<GroupRefView>) -> Seq<(EntryView, Seq<GroupRefView>)>
    decreases g, 2int,
{
    children_entries(g.children, loc.push(ref_of(g)))
}

pub open spec fn children_entries(cs: Seq<NodeView>, here: Seq<GroupRefView>) -> Seq<(EntryView, Seq<GroupRefView>)>
    decreases cs, 1int,
{
    if cs.len() == 0 {
        Seq::empty()
    } else {
        children_entries(cs.subrange(0, cs.len() - 1), here) + node_entries(cs[cs.len() - 1], here)
    }
}

pub open spec fn node_entries(n: NodeView, here: Seq<GroupRefView>) -> Seq<(EntryView, Seq<GroupRefView>)>
    decreases n, 0int,
{
    match n {
        NodeView::Entry(e) => seq![(e, here)],
        NodeView::Group(g) => group_entries(g, here),
    }
}

/// The first of the listed entries with the given uuid.
pub open spec fn first_with_uuid(s: Seq<(EntryView, Seq<GroupRefView>)>, uuid: u128) -> Option<(EntryView, Seq<GroupRefView>)>
    decreases s.len(),
{
    if s.len() == 0 {
        None
    } else if s[0].0.uuid == uuid {
        Some(s[0])
    } else {
        first_with_uuid(s.drop_first(), uuid)
    }
}

/// The entry with the given uuid that comes first depth first, with its location.
pub open spec fn find_entry_spec(g: GroupView, uuid: u128) -> Option<(EntryView, Seq<GroupRefView>)> {
    first_with_uuid(group_entries(g, Seq::empty()), uuid)
}

/// No two entries of the tree share a uuid.
pub open spec fn entry_uuids_unique(g: GroupView) -> bool {
    let s = group_entries(g, Seq::empty());
    forall|i: int, j: int| 0 <= i < j < s.len() ==> (#[trigger] s[i]).0.uuid != (#[trigger] s[j]).0.uuid
}

pub open spec fn listed_view(v: Seq<(Entry, NodeLocation)>) -> Seq<(EntryView, Seq<GroupRefView>)> {
    Seq::new(v.len(), |i: int| (v[i].0@, location_view(v[i].1@)))
}

pub proof fn lemma_first_with_uuid_at(s: Seq<(EntryView, Seq<GroupRefView>)>, uuid: u128, i: int)
    requires
        0 <= i < s.len(),
        s[i].0.uuid == uuid,
        forall|j: int| 0 <= j < i ==> s[j].0.uuid != uuid,
    ensures
        first_with_uuid(s, uuid) == Some(s[i]),
    decreases i,
{
    if i > 0 {
        lemma_first_with_uuid_at(s.drop_first(), uuid, i - 1);
    }
}

pub proof fn lemma_first_with_uuid_none(s: Seq<(EntryView, Seq<GroupRefView>)>, uuid: u128)
    requires
        forall|j: int| 0 <= j < s.len() ==> s[j].0.uuid != uuid,
    ensures
        first_with_uuid(s, uuid).is_none(),
    decreases s.len(),
{
    if s.len() > 0 {
        lemma_first_with_uuid_none(s.drop_first(), uuid);
    }
}

fn location_copy(l: &Vec<GroupRef>) -> (r: Vec<GroupRef>)
    ensures
        location_view(r@) == location_view(l@),
{
    let mut r: Vec<GroupRef> = Vec::new();
    let mut i: usize = 0;
    while i < l.len()
        invariant
            0 <= i <= l@.len(),
            r@.len() == i,
            forall|j: int| 0 <= j < i ==> r@[j]@ == l@[j]@,
        decreases l.len() - i,
    {
        r.push(l[i].duplicate());
        i += 1;
    }
    assert(location_view(r@) =~= location_view(l@));
    r
}

impl Group {
    /// The reference to this group that a path holds.
    pub fn to_ref(&self) -> (r: GroupRef)
        ensures
            r@ == ref_of(self@),
    {
        let name = match &self.name {
            Some(n) => n.clone(),
            None => String::new(),
        };
        GroupRef { uuid: self.uuid, name }
    }

    /// Every entry below this group, copied, depth first in child order,
    /// each with the path from the top of `current_location` down to the
    /// group that holds it.
    pub fn get_all_entries(&self, current_location: &NodeLocation) -> (r: Vec<(Entry, NodeLocation)>)
        ensures
            listed_view(r@) == group_entries(self@, location_view(current_location@)),
        decreases self,
    {
        let mut here = location_copy(current_location);
        here.push(self.to_ref());
        let ghost here_v = location_view(current_location@).push(ref_of(self@));
        assert(location_view(here@) =~= here_v);
        let mut response: Vec<(Entry, NodeLocation)> = Vec::new();
        let mut i: usize = 0;
        assert(listed_view(response@) =~= children_entries(self@.children.subrange(0, 0), here_v));
        while i < self.children.len()
            invariant
                0 <= i <= self.children@.len(),
                location_view(here@) == here_v,
                here_v == location_view(current_location@).push(ref_of(self@)),
                listed_view(response@) == children_entries(self@.children.subrange(0, i as int), here_v),
            decreases self.children.len() - i,
        {
            let ghost before = listed_view(response@);
            let ghost cs = self@.children.subrange(0, i as int + 1);
            assert(cs.subrange(0, cs.len() - 1) =~= self@.children.subrange(0, i as int));
            assert(cs[cs.len() - 1] == self@.children[i as int]);
            match &self.children[i] {
                Node::Entry(e) => {
                    response.push((e.duplicate(), location_copy(&here)));
                    assert(self@.children[i as int] == NodeView::Entry(e@));
                    assert(listed_view(response@) =~= before + seq![(e@, here_v)]);
                },
                Node::Group(g) => {
                    proof {
                        assert(decreases_to!(self.children => self.children@));
                        assert(decreases_to!(*self => self.children@[i as int]));
                    }
                    let sub = g.get_all_entries(&here);
                    assert(self@.children[i as int] == NodeView::Group(g@));
                    let ghost mid = listed_view(response@);
                    let mut k: usize = 0;
                    while k < sub.len()
                        invariant
                            0 <= k <= sub@.len(),
                            mid == before,
                            listed_view(response@) == before + listed_view(sub@).subrange(0, k as int),
                        decreases sub.len() - k,
                    {
                        let ghost old_resp = response@;
                        let item = (sub[k].0.duplicate(), location_copy(&sub[k].1));
                        assert((item.0@, location_view(item.1@)) == listed_view(sub@)[k as int]);
                        response.push(item);
                        assert(response@ == old_resp.push(item));
                        assert(listed_view(response@) =~= listed_view(old_resp).push(listed_view(sub@)[k as int]));
                        k += 1;
                        assert(listed_view(sub@).subrange(0, k as int) =~= listed_view(sub@).subrange(0, k - 1).push(listed_view(sub@)[k - 1]));
                        assert(listed_view(response@) =~= before + listed_view(sub@).subrange(0, k as int));
                    }
                    assert(listed_view(sub@).subrange(0, sub@.len() as int) =~= listed_view(sub@));
                },
            }
            assert(children_entries(cs, here_v) == children_entries(self@.children.subrange(0, i as int), here_v)
                + node_entries(self@.children[i as int], here_v));
            i += 1;
        }
        assert(self@.children.subrange(0, self@.children.len() as int) =~= self@.children);
        response
    }

    /// The entry with the given uuid that comes first depth first, copied,
    /// with the path from this group down to the group that holds it.
    pub fn find_entry(&self, uuid: u128) -> (r: Option<(Entry, NodeLocation)>)
        ensures
            r.is_none() == find_entry_spec(self@, uuid).is_none(),
            r.is_some() ==> (r.unwrap().0@, location_view(r.unwrap().1@)) == find_entry_spec(self@, uuid).unwrap(),
    {
        let empty: NodeLocation = Vec::new();
        assert(location_view(empty@) =~= Seq::<GroupRefView>::empty());
        let mut all = self.get_all_entries(&empty);
        let ghost s = listed_view(all@);
        let mut i: usize = 0;
        while i < all.len()
            invariant
                0 <= i <= all@.len(),
                s == listed_view(all@),
                s == group_entries(self@, Seq::empty()),
                forall|j: int| 0 <= j < i ==> s[j].0.uuid != uuid,
            decreases all.len() - i,
        {
            if all[i].0.uuid == uuid {
                proof { lemma_first_with_uuid_at(s, uuid, i as int); }
                assert(s[i as int] == (all@[i as int].0@, location_view(all@[i as int].1@)));
                let found = all.remove(i);
                return Some(found);
            }
            i += 1;
        }
        proof { lemma_first_with_uuid_none(s, uuid); }
        None
    }

    /// The path from this group down to the group holding the entry with
    /// the given uuid that comes first depth first.
    pub fn find_entry_location(&self, uuid: u128) -> (r: Option<NodeLocation>)
        ensures
            r.is_none() == find_entry_spec(self@, uuid).is_none(),
            r.is_some() ==> location_view(r.unwrap()@) == find_entry_spec(self@, uuid).unwrap().1,
    {
        match self.find_entry(uuid) {
            None => None,
            Some(found) => Some(found.1),
        }
    }
}

/// The first child that is a group with the given uuid, from `from` on.
pub open spec fn child_group_from(cs: Seq<NodeView>, uuid: u128, from: int) -> Option<int>
    decreases cs.len() - from,
{
    if from < 0 || from >= cs.len() {
        None
    } else if cs[from] is Group && cs[from]->Group_0.uuid == uuid {
        Some(from)
    } else {
        child_group_from(cs, uuid, from + 1)
    }
}

pub open spec fn child_group(cs: Seq<NodeView>, uuid: u128) -> Option<int> {
    child_group_from(cs, uuid, 0)
}

proof fn lemma_child_group_at(cs: Seq<NodeView>, uuid: u128, from: int, i: int)
    requires
        0 <= from <= i < cs.len(),
        cs[i] is Group && cs[i]->Group_0.uuid == uuid,
        forall|j: int| from <= j < i ==> !(cs[j] is Group && cs[j]->Group_0.uuid == uuid),
    ensures
        child_group_from(cs, uuid, from) == Some(i),
    decreases i - from,
{
    if from < i {
        lemma_child_group_at(cs, uuid, from + 1, i);
    }
}

proof fn lemma_child_group_none(cs: Seq<NodeView>, uuid: u128, from: int)
    requires
        0 <= from <= cs.len(),
        forall|j: int| from <= j < cs.len() ==> !(cs[j] is Group && cs[j]->Group_0.uuid == uuid),
    ensures
        child_group_from(cs, uuid, from).is_none(),
    decreases cs.len() - from,
{
    if from < cs.len() {
        lemma_child_group_none(cs, uuid, from + 1);
    }
}

proof fn lemma_child_group_found(cs: Seq<NodeView>, uuid: u128, from: int)
    requires
        child_group_from(cs, uuid, from).is_some(),
    ensures
        ({
            let i = child_group_from(cs, uuid, from).unwrap();
            0 <= i < cs.len() && cs[i] is Group && cs[i]->Group_0.uuid == uuid
        }),
    decreases cs.len() - from,
{
    if !(cs[from] is Group && cs[from]->Group_0.uuid == uuid) {
        lemma_child_group_found(cs, uuid, from + 1);
    }
}

/// A group created to complete a path: uuid and name from the path, the
/// folder icon, the given times, nothing else.
pub open spec fn shell_view(r: GroupRefView, times: Times) -> GroupView {
    GroupView {
        uuid: r.uuid,
        name: Some(r.name),
        notes: None,
        icon_id: Some(IconId(IconId::FOLDER)),
        custom_icon_uuid: None,
        children: Seq::empty(),
        times,
        custom_data: Map::empty(),
        is_expanded: false,
        default_autotype_sequence: None,
        enable_autotype: None,
        enable_searching: None,
        last_top_visible_entry: None,
    }
}

/// The chain of new groups for the path `rest` (not empty), the entry at its bottom.
pub open spec fn chain_view(rest: Seq<GroupRefView>, e: EntryView, times: Times) -> GroupView
    decreases rest.len(),
{
    if rest.len() <= 1 {
        GroupView { children: seq![NodeView::Entry(e)], ..shell_view(rest[0], times) }
    } else {
        GroupView { children: seq![NodeView::Group(chain_view(rest.drop_first(), e, times))], ..shell_view(rest[0], times) }
    }
}

/// The tree after adding entry `e` at the end of the group that the path
/// `rest` (below `g`) leads to; where a step names no child group (by uuid),
/// the rest of the path is created.
pub open spec fn insert_at(g: GroupView, rest: Seq<GroupRefView>, e: EntryView, times: Times) -> GroupView
    decreases rest.len(),
{
    if rest.len() == 0 {
        GroupView { children: g.children.push(NodeView::Entry(e)), ..g }
    } else {
        match child_group(g.children, rest[0].uuid) {
            Some(i) => GroupView {
                children: g.children.update(i, NodeView::Group(insert_at(g.children[i]->Group_0, rest.drop_first(), e, times))),
                ..g
            },
            None => GroupView { children: g.children.push(NodeView::Group(chain_view(rest, e, times))), ..g },
        }
    }
}

/// The group that the path `rest` leads to below `g`, without creating any.
pub open spec fn group_at(g: GroupView, rest: Seq<GroupRefView>) -> Option<GroupView>
    decreases rest.len(),
{
    if rest.len() == 0 {
        Some(g)
    } else {
        match child_group(g.children, rest[0].uuid) {
            Some(i) => group_at(g.children[i]->Group_0, rest.drop_first()),
            None => None,
        }
    }
}

pub open spec fn is_entry_with(n: NodeView, uuid: u128) -> bool {
    n is Entry && n->Entry_0.uuid == uuid
}

/// The children without the entries with the given uuid.
pub open spec fn without_entry(cs: Seq<NodeView>, uuid: u128) -> Seq<NodeView>
    decreases cs.len(),
{
    if cs.len() == 0 {
        cs
    } else if is_entry_with(cs.last(), uuid) {
        without_entry(cs.drop_last(), uuid)
    } else {
        without_entry(cs.drop_last(), uuid).push(cs.last())
    }
}

/// The last child that is an entry with the given uuid.
pub open spec fn last_entry_with(cs: Seq<NodeView>, uuid: u128) -> Option<EntryView>
    decreases cs.len(),
{
    if cs.len() == 0 {
        None
    } else if is_entry_with(cs.last(), uuid) {
        Some(cs.last()->Entry_0)
    } else {
        last_entry_with(cs.drop_last(), uuid)
    }
}

/// The tree after removing, from the group that `rest` leads to, the
/// direct child entries with the given uuid.
pub open spec fn remove_at(g: GroupView, rest: Seq<GroupRefView>, uuid: u128) -> GroupView
    decreases rest.len(),
{
    if rest.len() == 0 {
        GroupView { children: without_entry(g.children, uuid), ..g }
    } else {
        match child_group(g.children, rest[0].uuid) {
            Some(i) => GroupView {
                children: g.children.update(i, NodeView::Group(remove_at(g.children[i]->Group_0, rest.drop_first(), uuid))),
                ..g
            },
            None => g,
        }
    }
}

/// The tree with every entry of the given uuid holding `e`.
pub open spec fn replace_in(g: GroupView, uuid: u128, e: EntryView) -> GroupView
    decreases g,
{
    GroupView {
        children: Seq::new(
            g.children.len(),
            |i: int|
                if 0 <= i < g.children.len() {
                    match g.children[i] {
                        NodeView::Entry(x) => if x.uuid == uuid { NodeView::Entry(e) } else { NodeView::Entry(x) },
                        NodeView::Group(h) => NodeView::Group(replace_in(h, uuid, e)),
                    }
                } else {
                    NodeView::Entry(e)
                },
        ),
        ..g
    }
}

/// Whether some entry below `g` has the given uuid.
pub open spec fn holds_entry(g: GroupView, uuid: u128) -> bool
    decreases g,
{
    exists|i: int|
        0 <= i < g.children.len() && match #[trigger] g.children[i] {
            NodeView::Entry(x) => x.uuid == uuid,
            NodeView::Group(h) => holds_entry(h, uuid),
        }
}

proof fn lemma_without_len(cs: Seq<NodeView>, uuid: u128)
    ensures
        without_entry(cs, uuid).len() <= cs.len(),
    decreases cs.len(),
{
    if cs.len() > 0 {
        lemma_without_len(cs.drop_last(), uuid);
    }
}

proof fn lemma_without_step(cs: Seq<NodeView>, j: int, uuid: u128)
    requires
        0 <= j < cs.len(),
    ensures
        without_entry(cs.subrange(0, j + 1), uuid) == (if is_entry_with(cs[j], uuid) {
            without_entry(cs.subrange(0, j), uuid)
        } else {
            without_entry(cs.subrange(0, j), uuid).push(cs[j])
        }),
        last_entry_with(cs.subrange(0, j + 1), uuid) == (if is_entry_with(cs[j], uuid) {
            Some(cs[j]->Entry_0)
        } else {
            last_entry_with(cs.subrange(0, j), uuid)
        }),
        cs.subrange(j, cs.len() as int) == seq![cs[j]] + cs.subrange(j + 1, cs.len() as int),
{
    assert(cs.subrange(0, j + 1).drop_last() =~= cs.subrange(0, j));
    assert(cs.subrange(0, j + 1).last() == cs[j]);
    assert(cs.subrange(j, cs.len() as int) =~= seq![cs[j]] + cs.subrange(j + 1, cs.len() as int));
}

impl Node {
    pub fn get_uuid(&self) -> (r: u128)
        ensures
            r == match self@ {
                NodeView::Group(g) => g.uuid,
                NodeView::Entry(e) => e.uuid,
            },
    {
        match self {
            Node::Group(g) => g.uuid,
            Node::Entry(e) => e.uuid,
        }
    }

    pub fn set_parent(&mut self, parent: Option<u128>)
        ensures
            *final(self) == with_parent(*old(self), parent),
            final(self)@ == old(self)@,
    {
        match self {
            Node::Group(g) => {
                g.parent = parent;
            },
            Node::Entry(e) => {
                e.parent = parent;
            },
        }
    }

    /// An independent copy with the same content and no parent.
    pub fn duplicate(&self) -> (r: Node)
        ensures
            r@ == self@,
    {
        match self {
            Node::Group(g) => Node::Group(g.duplicate()),
            Node::Entry(e) => Node::Entry(e.duplicate()),
        }
    }
}

impl Group {
    /// An independent copy of the group and everything below it, uuids
    /// kept, with no parent; each copied child has the copy as its parent.
    pub fn duplicate(&self) -> (r: Group)
        ensures
            r@ == self@,
            r.parent.is_none(),
            r.uuid == self.uuid,
            forall|i: int| 0 <= i < r.children@.len() ==> node_parent(#[trigger] r.children@[i]) == Some(r.uuid),
        decreases self,
    {
        let mut children: Vec<Node> = Vec::new();
        let mut i: usize = 0;
        while i < self.children.len()
            invariant
                0 <= i <= self.children@.len(),
                children@.len() == i,
                forall|j: int| 0 <= j < i ==> (#[trigger] children@[j])@ == self@.children[j],
                forall|j: int| 0 <= j < i ==> node_parent(#[trigger] children@[j]) == Some(self.uuid),
            decreases self.children.len() - i,
        {
            proof {
                assert(decreases_to!(self.children => self.children@));
                assert(decreases_to!(*self => self.children@[i as int]));
            }
            let mut c = match &self.children[i] {
                Node::Group(g) => Node::Group(g.duplicate()),
                Node::Entry(e) => Node::Entry(e.duplicate()),
            };
            c.set_parent(Some(self.uuid));
            children.push(c);
            i += 1;
        }
        let r = Group {
            uuid: self.uuid,
            name: opt_string_copy(&self.name),
            notes: opt_string_copy(&self.notes),
            icon_id: self.icon_id,
            custom_icon_uuid: self.custom_icon_uuid,
            children,
            times: self.times,
            custom_data: self.custom_data.duplicate(),
            is_expanded: self.is_expanded,
            default_autotype_sequence: opt_string_copy(&self.default_autotype_sequence),
            enable_autotype: opt_string_copy(&self.enable_autotype),
            enable_searching: opt_string_copy(&self.enable_searching),
            last_top_visible_entry: self.last_top_visible_entry,
            parent: None,
        };
        assert(r@.children =~= self@.children);
        r
    }

    /// Whether the children of both groups are equal, pairwise in order.
    fn compare_children(&self, other: &Group) -> (r: bool)
        ensures
            r == (self@.children == other@.children),
        decreases self, 0int,
    {
        if self.children.len() != other.children.len() {
            assert(self@.children.len() != other@.children.len());
            return false;
        }
        let mut i: usize = 0;
        while i < self.children.len()
            invariant
                self.children@.len() == other.children@.len(),
                0 <= i <= self.children@.len(),
                forall|j: int| 0 <= j < i ==> self@.children[j] == other@.children[j],
            decreases self.children.len() - i,
        {
            proof {
                assert(decreases_to!(self.children => self.children@));
                assert(decreases_to!(*self => self.children@[i as int]));
            }
            let same = match &self.children[i] {
                Node::Group(a) => match &other.children[i] {
                    Node::Group(b) => a.equals(b),
                    Node::Entry(_) => false,
                },
                Node::Entry(a) => match &other.children[i] {
                    Node::Entry(b) => a.equals(b),
                    Node::Group(_) => false,
                },
            };
            if !same {
                assert(self@.children[i as int] != other@.children[i as int]);
                return false;
            }
            i += 1;
        }
        assert(self@.children =~= other@.children);
        true
    }

    /// Whether two groups hold the same content, children included (their
    /// parents aside).
    pub fn equals(&self, other: &Group) -> (r: bool)
        ensures
            r == (self@ == other@),
        decreases self, 1int,
    {
        self.uuid == other.uuid && self.compare_children(other) && self.times == other.times
            && opt_string_equal(&self.name, &other.name)
            && opt_string_equal(&self.notes, &other.notes)
            && self.icon_id == other.icon_id
            && self.custom_icon_uuid == other.custom_icon_uuid
            && self.is_expanded == other.is_expanded
            && opt_string_equal(&self.default_autotype_sequence, &other.default_autotype_sequence)
            && opt_string_equal(&self.enable_autotype, &other.enable_autotype)
            && opt_string_equal(&self.enable_searching, &other.enable_searching)
            && self.last_top_visible_entry == other.last_top_visible_entry
            && self.custom_data.same_as(&other.custom_data)
    }

    /// A group shell for a path element: its uuid and name, the folder icon.
    pub fn shell(r: &GroupRef, times: Times) -> (g: Group)
        ensures
            g@ == shell_view(r@, times),
            g.parent.is_none(),
    {
        let g = Group {
            uuid: r.uuid,
            name: Some(r.name.clone()),
            notes: None,
            icon_id: Some(IconId(IconId::FOLDER)),
            custom_icon_uuid: None,
            children: Vec::new(),
            times,
            custom_data: CustomData { items: Vec::new() },
            is_expanded: false,
            default_autotype_sequence: None,
            enable_autotype: None,
            enable_searching: None,
            last_top_visible_entry: None,
            parent: None,
        };
        assert(g@.children =~= Seq::<NodeView>::empty());
        assert(g@.custom_data =~= Map::<Seq<char>, CustomDataItemView>::empty());
        g
    }

    /// Adds `child` at `index` (at the end where `index` is past it) and
    /// makes this group its parent.
    pub fn add_child(&mut self, child: Node, index: usize)
        ensures
            final(self)@ == (GroupView {
                children: old(self)@.children.insert(
                    if index < old(self)@.children.len() { index as int } else { old(self)@.children.len() as int },
                    child@,
                ),
                ..old(self)@
            }),
            final(self).parent == old(self).parent,
            final(self).uuid == old(self).uuid,
            final(self).children@ == old(self).children@.insert(
                if index < old(self).children@.len() { index as int } else { old(self).children@.len() as int },
                with_parent(child, Some(old(self).uuid)),
            ),
    {
        let mut child = child;
        child.set_parent(Some(self.uuid));
        let ghost cv = child@;
        let ghost before = self@;
        if index < self.children.len() {
            self.children.insert(index, child);
        } else {
            let n = self.children.len();
            self.children.insert(n, child);
        }
        assert(self@.children =~= before.children.insert(
            if index < before.children.len() { index as int } else { before.children.len() as int },
            cv,
        ));
    }

    /// The index of the first child that is a group with the given uuid.
    fn child_group_index(&self, uuid: u128) -> (r: Option<usize>)
        ensures
            r.is_none() == child_group(self@.children, uuid).is_none(),
            r.is_some() ==> r.unwrap() as int == child_group(self@.children, uuid).unwrap(),
            r.is_some() ==> r.unwrap() < self.children@.len() && self.children@[r.unwrap() as int] is Group,
    {
        let mut i: usize = 0;
        while i < self.children.len()
            invariant
                0 <= i <= self.children@.len(),
                forall|j: int| 0 <= j < i ==> !(self@.children[j] is Group && self@.children[j]->Group_0.uuid == uuid),
            decreases self.children.len() - i,
        {
            assert(self@.children[i as int] == self.children@[i as int]@);
            match &self.children[i] {
                Node::Group(g) => {
                    if g.uuid == uuid {
                        assert(self@.children[i as int] == NodeView::Group(g@));
                        proof { lemma_child_group_at(self@.children, uuid, 0, i as int); }
                        return Some(i);
                    }
                },
                Node::Entry(_) => {},
            }
            i += 1;
        }
        proof { lemma_child_group_none(self@.children, uuid, 0); }
        None
    }

    /// Whether this group has a child group with the given uuid.
    pub fn has_group(&self, uuid: u128) -> (r: bool)
        ensures
            r == child_group(self@.children, uuid).is_some(),
    {
        self.child_group_index(uuid).is_some()
    }

    /// The chain of new groups for `location[k..]`, with `entry` at its bottom.
    fn chain(location: &NodeLocation, k: usize, entry: Entry, times: Times) -> (g: Group)
        requires
            k < location@.len(),
        ensures
            g@ == chain_view(location_view(location@).subrange(k as int, location@.len() as int), entry@, times),
            g.uuid == location@[k as int].uuid,
            ({
                let below = location_view(location@).subrange(k as int + 1, location@.len() as int);
                group_at_node(g, below).is_some() && ends_with_entry(group_at_node(g, below).unwrap(), entry)
            }),
        decreases location@.len() - k,
    {
        let ghost rest = location_view(location@).subrange(k as int, location@.len() as int);
        let mut g = Group::shell(&location[k], times);
        assert(rest[0] == location@[k as int]@);
        let ghost below = location_view(location@).subrange(k as int + 1, location@.len() as int);
        if k == location.len() - 1 {
            let ghost e = entry;
            g.add_child(Node::Entry(entry), 0);
            assert(g@.children =~= seq![NodeView::Entry(entry@)]);
            assert(below.len() == 0);
            assert(g.children@.last() == Node::Entry(Entry { parent: Some(g.uuid), ..e }));
        } else {
            let inner = Group::chain(location, k + 1, entry, times);
            assert(rest.drop_first() =~= location_view(location@).subrange(k + 1, location@.len() as int));
            let ghost iv = inner;
            g.add_child(Node::Group(inner), 0);
            assert(g@.children =~= seq![NodeView::Group(inner@)]);
            proof {
                let c2 = Group { parent: Some(g.uuid), ..iv };
                assert(g.children@[0] == Node::Group(c2));
                assert(below[0] == location@[k as int + 1]@);
                lemma_child_group_at(g@.children, below[0].uuid, 0, 0);
                assert(below.drop_first() =~= location_view(location@).subrange(k as int + 2, location@.len() as int));
                lemma_reparent_keeps_end(iv, Some(g.uuid), below.drop_first(), entry);
            }
        }
        g
    }

    fn insert_rec(&mut self, location: &NodeLocation, k: usize, entry: Entry, times: Times)
        requires
            k <= location@.len(),
        ensures
            final(self)@ == insert_at(old(self)@, location_view(location@).subrange(k as int, location@.len() as int), entry@, times),
            final(self).parent == old(self).parent,
            final(self).uuid == old(self).uuid,
            ({
                let rest = location_view(location@).subrange(k as int, location@.len() as int);
                group_at_node(*final(self), rest).is_some() && ends_with_entry(group_at_node(*final(self), rest).unwrap(), entry)
            }),
        decreases location@.len() - k,
    {
        let ghost rest = location_view(location@).subrange(k as int, location@.len() as int);
        if k == location.len() {
            let ghost before = self@;
            let n = self.children.len();
            let ghost ev = entry@;
            let ghost e = entry;
            self.add_child(Node::Entry(entry), n);
            assert(rest.len() == 0);
            assert(self.children@.last() == Node::Entry(Entry { parent: Some(self.uuid), ..e }));
            assert(before.children.insert(n as int, NodeView::Entry(ev)) =~= before.children.push(NodeView::Entry(ev)));
            return;
        }
        assert(rest[0] == location@[k as int]@);
        assert(rest.drop_first() =~= location_view(location@).subrange(k + 1, location@.len() as int));
        match self.child_group_index(location[k].uuid) {
            Some(i) => {
                let ghost before = self@;
                let child = self.children.remove(i);
                match child {
                    Node::Group(mut g) => {
                        assert(before.children[i as int] == NodeView::Group(g@));
                        proof { lemma_child_group_found(before.children, rest[0].uuid, 0); }
                        assert(g.uuid == rest[0].uuid);
                        g.insert_rec(location, k + 1, entry, times);
                        self.children.insert(i, Node::Group(g));
                        assert(self@.children =~= before.children.update(i as int, NodeView::Group(g@)));
                        proof {
                            assert(self.children@[i as int] == Node::Group(g));
                            lemma_child_group_update(before.children, rest[0].uuid, i as int, NodeView::Group(g@));
                        }
                    },
                    Node::Entry(e) => {
                        self.children.insert(i, Node::Entry(e));
                    },
                }
            },
            None => {
                let ghost before = self@;
                let c = Group::chain(location, k, entry, times);
                let ghost cv = c@;
                let ghost cx = c;
                let n = self.children.len();
                self.add_child(Node::Group(c), n);
                assert(before.children.insert(n as int, NodeView::Group(cv)) =~= before.children.push(NodeView::Group(cv)));
                proof {
                    let c2 = Group { parent: Some(self.uuid), ..cx };
                    assert(self.children@[n as int] == Node::Group(c2));
                    lemma_child_group_none_all(before.children, rest[0].uuid, 0);
                    assert(self@.children[n as int] == NodeView::Group(cv));
                    lemma_child_group_at(self@.children, rest[0].uuid, 0, n as int);
                    lemma_reparent_keeps_end(cx, Some(self.uuid), rest.drop_first(), entry);
                }
            },
        }
    }

    /// Adds `entry` at the end of the group that `location` names (its first
    /// element standing for this group), creating the groups of the path
    /// that are missing (matched by uuid; created with the path's uuids and
    /// names and with `times`). Fails on an empty location.
    pub fn insert_entry(&mut self, entry: Entry, location: &NodeLocation, times: Times) -> (r: Result<(), MergeError>)
        ensures
            location@.len() == 0 ==> r == Err::<(), MergeError>(MergeError::EmptyLocation) && *final(self) == *old(self),
            location@.len() > 0 ==> r.is_ok() && final(self)@ == insert_at(old(self)@, location_view(location@).drop_first(), entry@, times),
            location@.len() > 0 ==> ({
                let rest = location_view(location@).drop_first();
                group_at_node(*final(self), rest).is_some() && ends_with_entry(group_at_node(*final(self), rest).unwrap(), entry)
            }),
            final(self).parent == old(self).parent,
            final(self).uuid == old(self).uuid,
    {
        if location.len() == 0 {
            return Err(MergeError::EmptyLocation);
        }
        assert(location_view(location@).drop_first() =~= location_view(location@).subrange(1, location@.len() as int));
        self.insert_rec(location, 1, entry, times);
        Ok(())
    }
}

impl Entry {
    /// Takes over the whole content of `other`, keeping its own parent.
    pub fn entry_replaced_with(&mut self, other: &Entry)
        ensures
            final(self)@ == other@,
            final(self).parent == old(self).parent,
    {
        let parent = self.parent;
        *self = other.duplicate();
        self.parent = parent;
    }
}

impl Group {
    /// Removes the direct child entries with the given uuid; returns the last
    /// one removed.
    fn remove_direct(&mut self, uuid: u128) -> (r: Option<Entry>)
        ensures
            final(self)@ == (GroupView { children: without_entry(old(self)@.children, uuid), ..old(self)@ }),
            r.is_none() == last_entry_with(old(self)@.children, uuid).is_none(),
            r.is_some() ==> r.unwrap()@ == last_entry_with(old(self)@.children, uuid).unwrap(),
            final(self).parent == old(self).parent,
    {
        let ghost cs = old(self)@.children;
        let n = self.children.len();
        let mut removed: Option<Entry> = None;
        let mut i: usize = 0;
        let mut j: usize = 0;
        while j < n
            invariant
                n == cs.len(),
                j <= n,
                i <= j,
                self@ == (GroupView { children: self@.children, ..old(self)@ }),
                self.parent == old(self).parent,
                self@.children == without_entry(cs.subrange(0, j as int), uuid) + cs.subrange(j as int, n as int),
                i == without_entry(cs.subrange(0, j as int), uuid).len(),
                removed.is_none() == last_entry_with(cs.subrange(0, j as int), uuid).is_none(),
                removed.is_some() ==> removed.unwrap()@ == last_entry_with(cs.subrange(0, j as int), uuid).unwrap(),
            decreases n - j,
        {
            proof {
                lemma_without_step(cs, j as int, uuid);
                lemma_without_len(cs.subrange(0, j as int), uuid);
            }
            assert(self@.children.len() == self.children@.len());
            assert(self@.children[i as int] == cs[j as int]);
            assert(self@.children[i as int] == self.children@[i as int]@);
            let hit = match &self.children[i] {
                Node::Entry(e) => e.uuid == uuid,
                Node::Group(_) => false,
            };
            let ghost before = self@.children;
            if hit {
                let node = self.children.remove(i);
                match node {
                    Node::Entry(e) => {
                        removed = Some(e);
                    },
                    Node::Group(_) => {},
                }
                assert(self@.children =~= before.remove(i as int));
            } else {
                assert(i < self.children@.len());
                i += 1;
            }
            assert(self@.children =~= without_entry(cs.subrange(0, j as int + 1), uuid) + cs.subrange(j as int + 1, n as int));
            j += 1;
        }
        assert(cs.subrange(0, n as int) =~= cs);
        assert(self@.children =~= without_entry(cs, uuid));
        removed
    }

    /// Whether some direct child is an entry with the given uuid.
    fn has_direct_entry(&self, uuid: u128) -> (r: bool)
        ensures
            r == last_entry_with(self@.children, uuid).is_some(),
    {
        let ghost v = self@.children;
        let mut i: usize = 0;
        let mut found = false;
        while i < self.children.len()
            invariant
                0 <= i <= v.len(),
                v == self@.children,
                found == last_entry_with(v.subrange(0, i as int), uuid).is_some(),
            decreases self.children.len() - i,
        {
            assert(v.subrange(0, i as int + 1).drop_last() =~= v.subrange(0, i as int));
            assert(v[i as int] == self.children@[i as int]@);
            match &self.children[i] {
                Node::Entry(e) => {
                    if e.uuid == uuid {
                        found = true;
                    }
                },
                Node::Group(_) => {},
            }
            i += 1;
        }
        assert(v.subrange(0, v.len() as int) =~= v);
        found
    }

    fn remove_rec(&mut self, uuid: u128, location: &NodeLocation, k: usize) -> (r: Result<Entry, MergeError>)
        requires
            k <= location@.len(),
        ensures
            ({
                let rest = location_view(location@).subrange(k as int, location@.len() as int);
                let target = group_at(old(self)@, rest);
                &&& target.is_none() ==> r == Err::<Entry, MergeError>(MergeError::GroupNotFound)
                &&& target.is_some() && last_entry_with(target.unwrap().children, uuid).is_none() ==> r is Err && r->Err_0 is EntryNotFound
                    && r->Err_0->EntryNotFound_uuid == uuid && r->Err_0->EntryNotFound_group@ == title_or_default(target.unwrap())
                &&& target.is_some() && last_entry_with(target.unwrap().children, uuid).is_some() ==> r.is_ok()
                &&& r.is_ok() ==> target.is_some() && r.unwrap()@ == last_entry_with(target.unwrap().children, uuid).unwrap()
                    && final(self)@ == remove_at(old(self)@, rest, uuid)
                &&& r.is_err() ==> final(self)@ == old(self)@
            }),
            final(self).parent == old(self).parent,
        decreases location@.len() - k,
    {
        let ghost rest = location_view(location@).subrange(k as int, location@.len() as int);
        if k == location.len() {
            assert(rest.len() == 0);
            if self.has_direct_entry(uuid) {
                match self.remove_direct(uuid) {
                    Some(e) => {
                        return Ok(e);
                    },
                    None => {
                        return Err(MergeError::EntryNotFound { uuid, group: self.title_or_default() });
                    },
                }
            }
            return Err(MergeError::EntryNotFound { uuid, group: self.title_or_default() });
        }
        assert(rest[0] == location@[k as int]@);
        assert(rest.drop_first() =~= location_view(location@).subrange(k + 1, location@.len() as int));
        match self.child_group_index(location[k].uuid) {
            Some(i) => {
                let ghost before = self@;
                let child = self.children.remove(i);
                match child {
                    Node::Group(mut g) => {
                        assert(before.children[i as int] == NodeView::Group(g@));
                        let r = g.remove_rec(uuid, location, k + 1);
                        self.children.insert(i, Node::Group(g));
                        assert(self@.children =~= before.children.update(i as int, NodeView::Group(g@)));
                        if r.is_err() {
                            assert(self@.children =~= before.children);
                        }
                        r
                    },
                    Node::Entry(e) => {
                        self.children.insert(i, Node::Entry(e));
                        Err(MergeError::GroupNotFound)
                    },
                }
            },
            None => Err(MergeError::GroupNotFound),
        }
    }

    /// Removes the entry with the given uuid from the group that `location`
    /// names (its first element standing for this group), creating nothing.
    /// Every direct child entry with that uuid goes; the last one is returned.
    pub fn remove_entry(&mut self, uuid: u128, location: &NodeLocation) -> (r: Result<Entry, MergeError>)
        ensures
            location@.len() == 0 ==> r == Err::<Entry, MergeError>(MergeError::EmptyLocation),
            location@.len() > 0 ==> ({
                let rest = location_view(location@).drop_first();
                let target = group_at(old(self)@, rest);
                &&& target.is_none() ==> r == Err::<Entry, MergeError>(MergeError::GroupNotFound)
                &&& target.is_some() && last_entry_with(target.unwrap().children, uuid).is_none() ==> r is Err && r->Err_0 is EntryNotFound
                    && r->Err_0->EntryNotFound_uuid == uuid && r->Err_0->EntryNotFound_group@ == title_or_default(target.unwrap())
                &&& target.is_some() && last_entry_with(target.unwrap().children, uuid).is_some() ==> r.is_ok()
                &&& r.is_ok() ==> target.is_some() && r.unwrap()@ == last_entry_with(target.unwrap().children, uuid).unwrap()
                    && final(self)@ == remove_at(old(self)@, rest, uuid)
            }),
            r.is_err() ==> final(self)@ == old(self)@,
            final(self).parent == old(self).parent,
    {
        if location.len() == 0 {
            return Err(MergeError::EmptyLocation);
        }
        assert(location_view(location@).drop_first() =~= location_view(location@).subrange(1, location@.len() as int));
        self.remove_rec(uuid, location, 1)
    }

    /// Gives every entry with the uuid of `entry`, anywhere below this group,
    /// the content of `entry` (each keeps its parent). Returns whether there
    /// was one.
    pub fn replace_entry(&mut self, entry: &Entry) -> (r: bool)
        ensures
            final(self)@ == replace_in(old(self)@, entry.uuid, entry@),
            r == holds_entry(old(self)@, entry.uuid),
            final(self).parent == old(self).parent,
    {
        let (g, found) = replace_owned(self, entry);
        *self = g;
        found
    }
}

fn replace_owned(g: &Group, entry: &Entry) -> (r: (Group, bool))
    ensures
        r.0@ == replace_in(g@, entry.uuid, entry@),
        r.1 == holds_entry(g@, entry.uuid),
        r.0.parent == g.parent,
    decreases g,
{
    let ghost before = g@;
    let ghost n = g.children@.len();
    let mut children: Vec<Node> = Vec::new();
    let mut found = false;
    let mut i: usize = 0;
    while i < g.children.len()
        invariant
            g.children@.len() == n,
            before == g@,
            before.children.len() == n,
            0 <= i <= n,
            children@.len() == i,
            forall|j: int| 0 <= j < i ==> (#[trigger] children@[j])@ == replace_in(before, entry.uuid, entry@).children[j],
            found == exists|j: int| 0 <= j < i && match #[trigger] before.children[j] {
                NodeView::Entry(x) => x.uuid == entry.uuid,
                NodeView::Group(h) => holds_entry(h, entry.uuid),
            },
        decreases n - i,
    {
        assert(before.children[i as int] == g.children@[i as int]@);
        let (c, hit) = match &g.children[i] {
            Node::Entry(e) => {
                assert(before.children[i as int] == NodeView::Entry(e@));
                let mut e2 = e.duplicate();
                e2.parent = e.parent;
                if e.uuid == entry.uuid {
                    e2.entry_replaced_with(entry);
                    (Node::Entry(e2), true)
                } else {
                    (Node::Entry(e2), false)
                }
            },
            Node::Group(h) => {
                proof {
                    assert(decreases_to!(g.children => g.children@));
                    assert(decreases_to!(*g => g.children@[i as int]));
                }
                assert(before.children[i as int] == NodeView::Group(h@));
                let (h2, hit) = replace_owned(h, entry);
                (Node::Group(h2), hit)
            },
        };
        children.push(c);
        let ghost p = |j: int| match before.children[j] {
            NodeView::Entry(x) => x.uuid == entry.uuid,
            NodeView::Group(h) => holds_entry(h, entry.uuid),
        };
        assert(hit == p(i as int));
        proof {
            if hit {
                assert(0 <= i < i + 1 && p(i as int));
            }
            if found {
                let w = choose|j: int| 0 <= j < i && match #[trigger] before.children[j] {
                    NodeView::Entry(x) => x.uuid == entry.uuid,
                    NodeView::Group(h) => holds_entry(h, entry.uuid),
                };
                assert(p(w));
            }
            if !found && !hit {
                assert forall|j: int| 0 <= j < i + 1 implies !(match #[trigger] before.children[j] {
                    NodeView::Entry(x) => x.uuid == entry.uuid,
                    NodeView::Group(h) => holds_entry(h, entry.uuid),
                }) by {
                    if j < i {
                        assert(!p(j));
                    }
                }
            }
        }
        found = found || hit;
        i += 1;
    }
    let r = Group {
        uuid: g.uuid,
        name: opt_string_copy(&g.name),
        notes: opt_string_copy(&g.notes),
        icon_id: g.icon_id,
        custom_icon_uuid: g.custom_icon_uuid,
        children,
        times: g.times,
        custom_data: g.custom_data.duplicate(),
        is_expanded: g.is_expanded,
        default_autotype_sequence: opt_string_copy(&g.default_autotype_sequence),
        enable_autotype: opt_string_copy(&g.enable_autotype),
        enable_searching: opt_string_copy(&g.enable_searching),
        last_top_visible_entry: g.last_top_visible_entry,
        parent: g.parent,
    };
    assert(r@.children =~= replace_in(before, entry.uuid, entry@).children);
    (r, found)
}

/// The node is an entry with the given uuid, or a group holding one.
pub open spec fn node_holds(n: NodeView, uuid: u128) -> bool {
    match n {
        NodeView::Entry(x) => x.uuid == uuid,
        NodeView::Group(h) => holds_entry(h, uuid),
    }
}

proof fn lemma_holds_at(g: GroupView, uuid: u128, j: int)
    requires
        0 <= j < g.children.len(),
        node_holds(g.children[j], uuid),
    ensures
        holds_entry(g, uuid),
{
    assert(match g.children[j] {
        NodeView::Entry(x) => x.uuid == uuid,
        NodeView::Group(h) => holds_entry(h, uuid),
    });
}

proof fn lemma_holds_witness(g: GroupView, uuid: u128) -> (j: int)
    requires
        holds_entry(g, uuid),
    ensures
        0 <= j < g.children.len(),
        node_holds(g.children[j], uuid),
{
    choose|j: int| 0 <= j < g.children.len() && match #[trigger] g.children[j] {
        NodeView::Entry(x) => x.uuid == uuid,
        NodeView::Group(h) => holds_entry(h, uuid),
    }
}

proof fn lemma_chain_holds(rest: Seq<GroupRefView>, e: EntryView, times: Times)
    requires
        rest.len() >= 1,
    ensures
        holds_entry(chain_view(rest, e, times), e.uuid),
    decreases rest.len(),
{
    let c = chain_view(rest, e, times);
    if rest.len() <= 1 {
        assert(c.children[0] == NodeView::Entry(e));
        lemma_holds_at(c, e.uuid, 0);
    } else {
        lemma_chain_holds(rest.drop_first(), e, times);
        assert(c.children[0] == NodeView::Group(chain_view(rest.drop_first(), e, times)));
        lemma_holds_at(c, e.uuid, 0);
    }
}

/// After an insertion the tree holds the inserted entry and every entry it held.
pub proof fn lemma_insert_holds(g: GroupView, rest: Seq<GroupRefView>, e: EntryView, times: Times, uuid: u128)
    requires
        holds_entry(g, uuid) || uuid == e.uuid,
    ensures
        holds_entry(insert_at(g, rest, e, times), uuid),
    decreases rest.len(),
{
    let r = insert_at(g, rest, e, times);
    if rest.len() == 0 {
        if uuid == e.uuid {
            assert(r.children[g.children.len() as int] == NodeView::Entry(e));
            lemma_holds_at(r, uuid, g.children.len() as int);
        } else {
            let j = lemma_holds_witness(g, uuid);
            assert(r.children[j] == g.children[j]);
            lemma_holds_at(r, uuid, j);
        }
    } else {
        match child_group(g.children, rest[0].uuid) {
            Some(i) => {
                lemma_child_group_found(g.children, rest[0].uuid, 0);
                let ch = g.children[i]->Group_0;
                if uuid == e.uuid {
                    lemma_insert_holds(ch, rest.drop_first(), e, times, uuid);
                    lemma_holds_at(r, uuid, i);
                } else {
                    let j = lemma_holds_witness(g, uuid);
                    if j == i {
                        lemma_insert_holds(ch, rest.drop_first(), e, times, uuid);
                        lemma_holds_at(r, uuid, i);
                    } else {
                        assert(r.children[j] == g.children[j]);
                        lemma_holds_at(r, uuid, j);
                    }
                }
            },
            None => {
                if uuid == e.uuid {
                    lemma_chain_holds(rest, e, times);
                    assert(r.children[g.children.len() as int] == NodeView::Group(chain_view(rest, e, times)));
                    lemma_holds_at(r, uuid, g.children.len() as int);
                } else {
                    let j = lemma_holds_witness(g, uuid);
                    assert(r.children[j] == g.children[j]);
                    lemma_holds_at(r, uuid, j);
                }
            },
        }
    }
}

/// Replacing the content of the entries of one uuid (by an entry of that
/// uuid) keeps every entry.
pub proof fn lemma_replace_holds(g: GroupView, replaced: u128, e: EntryView, uuid: u128)
    requires
        holds_entry(g, uuid),
        e.uuid == replaced,
    ensures
        holds_entry(replace_in(g, replaced, e), uuid),
    decreases g,
{
    let r = replace_in(g, replaced, e);
    let j = lemma_holds_witness(g, uuid);
    match g.children[j] {
        NodeView::Entry(x) => {
            lemma_holds_at(r, uuid, j);
        },
        NodeView::Group(h) => {
            lemma_replace_holds(h, replaced, e, uuid);
            lemma_holds_at(r, uuid, j);
        },
    }
}

proof fn lemma_first_with_uuid_some(s: Seq<(EntryView, Seq<GroupRefView>)>, uuid: u128) -> (i: int)
    requires
        first_with_uuid(s, uuid).is_some(),
    ensures
        0 <= i < s.len(),
        s[i].0.uuid == uuid,
    decreases s.len(),
{
    if s[0].0.uuid == uuid {
        0
    } else {
        let k = lemma_first_with_uuid_some(s.drop_first(), uuid);
        k + 1
    }
}

proof fn lemma_listed_holds(g: GroupView, loc: Seq<GroupRefView>, i: int, uuid: u128)
    requires
        0 <= i < group_entries(g, loc).len(),
        group_entries(g, loc)[i].0.uuid == uuid,
    ensures
        holds_entry(g, uuid),
    decreases g, 1int,
{
    let here = loc.push(ref_of(g));
    let j = lemma_children_listed_holds(g.children, here, i, uuid);
    lemma_holds_at(g, uuid, j);
}

proof fn lemma_children_listed_holds(cs: Seq<NodeView>, here: Seq<GroupRefView>, i: int, uuid: u128) -> (j: int)
    requires
        0 <= i < children_entries(cs, here).len(),
        children_entries(cs, here)[i].0.uuid == uuid,
    ensures
        0 <= j < cs.len(),
        node_holds(cs[j], uuid),
    decreases cs, 0int,
{
    let pre = cs.subrange(0, cs.len() - 1);
    let a = children_entries(pre, here);
    let last = cs[cs.len() - 1];
    if i < a.len() {
        let k = lemma_children_listed_holds(pre, here, i, uuid);
        assert(cs[k] == pre[k]);
        k
    } else {
        match last {
            NodeView::Entry(x) => {
                assert(node_entries(last, here) == seq![(x, here)]);
            },
            NodeView::Group(h) => {
                assert(node_entries(last, here) == group_entries(h, here));
                lemma_listed_holds(h, here, i - a.len(), uuid);
            },
        }
        cs.len() - 1
    }
}

/// An entry that the depth-first search finds is held by the tree.
pub proof fn lemma_found_holds(g: GroupView, uuid: u128)
    requires
        find_entry_spec(g, uuid).is_some(),
    ensures
        holds_entry(g, uuid),
{
    let i = lemma_first_with_uuid_some(group_entries(g, Seq::empty()), uuid);
    lemma_listed_holds(g, Seq::empty(), i, uuid);
}

/// The parent a node records.
pub open spec fn node_parent(n: Node) -> Option<u128> {
    match n {
        Node::Group(g) => g.parent,
        Node::Entry(e) => e.parent,
    }
}

/// The node with its recorded parent set to `p`.
pub open spec fn with_parent(n: Node, p: Option<u128>) -> Node {
    match n {
        Node::Group(g) => Node::Group(Group { parent: p, ..g }),
        Node::Entry(e) => Node::Entry(Entry { parent: p, ..e }),
    }
}

/// The group (as held in the tree) that the path `rest` leads to below `g`,
/// each step taking the first child group with the step's uuid.
pub open spec fn group_at_node(g: Group, rest: Seq<GroupRefView>) -> Option<Group>
    decreases rest.len(),
{
    if rest.len() == 0 {
        Some(g)
    } else {
        match child_group(g@.children, rest[0].uuid) {
            Some(i) => match g.children@[i] {
                Node::Group(c) => group_at_node(c, rest.drop_first()),
                Node::Entry(_) => None,
            },
            None => None,
        }
    }
}

/// The last child of `t` is `entry`, recording `t` as its parent.
pub open spec fn ends_with_entry(t: Group, entry: Entry) -> bool {
    t.children@.len() > 0 && t.children@.last() == Node::Entry(Entry { parent: Some(t.uuid), ..entry })
}

proof fn lemma_reparent_keeps_end(c: Group, p: Option<u128>, r: Seq<GroupRefView>, entry: Entry)
    requires
        group_at_node(c, r).is_some(),
        ends_with_entry(group_at_node(c, r).unwrap(), entry),
    ensures
        group_at_node(Group { parent: p, ..c }, r).is_some(),
        ends_with_entry(group_at_node(Group { parent: p, ..c }, r).unwrap(), entry),
{
    let c2 = Group { parent: p, ..c };
    assert(c2@ == c@);
}

proof fn lemma_child_group_first(cs: Seq<NodeView>, uuid: u128, from: int, j: int)
    requires
        child_group_from(cs, uuid, from).is_some(),
        0 <= from <= j < child_group_from(cs, uuid, from).unwrap(),
    ensures
        !(cs[j] is Group && cs[j]->Group_0.uuid == uuid),
    decreases j - from,
{
    if from < j {
        lemma_child_group_first(cs, uuid, from + 1, j);
    }
}

proof fn lemma_child_group_none_all(cs: Seq<NodeView>, uuid: u128, from: int)
    requires
        0 <= from,
        child_group_from(cs, uuid, from).is_none(),
    ensures
        forall|j: int| from <= j < cs.len() ==> !(cs[j] is Group && cs[j]->Group_0.uuid == uuid),
    decreases cs.len() - from,
{
    if from < cs.len() {
        lemma_child_group_none_all(cs, uuid, from + 1);
    }
}

proof fn lemma_child_group_update(cs: Seq<NodeView>, uuid: u128, i: int, x: NodeView)
    requires
        child_group(cs, uuid) == Some(i),
        x is Group && x->Group_0.uuid == uuid,
    ensures
        child_group(cs.update(i, x), uuid) == Some(i),
{
    lemma_child_group_found(cs, uuid, 0);
    assert forall|j: int| 0 <= j < i implies !(cs.update(i, x)[j] is Group && cs.update(i, x)[j]->Group_0.uuid == uuid) by {
        lemma_child_group_first(cs, uuid, 0, j);
    }
    lemma_child_group_at(cs.update(i, x), uuid, 0, i);
}

/// A group's title, or "No title" for a group without a name.
pub open spec fn title_or_default(g: GroupView) -> Seq<char> {
    match g.name {
        Some(n) => n,
        None => "No title"@,
    }
}

impl Group {
    /// The group's title, or "No title" for a group without a name.
    pub fn title_or_default(&self) -> (r: String)
        ensures
            r@ == title_or_default(self@),
    {
        proof { reveal_strlit("No title"); }
        match &self.name {
            Some(n) => n.clone(),
            None => String::from_str("No title"),
        }
    }
}

} // verus!
