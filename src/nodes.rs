//! Group accessors, lookup by path, and the node-level helpers.

use vstd::prelude::*;
use crate::entry::{committed, has_uncommitted_changes_spec, CustomData, CustomDataItemView, Entry, EntryView};
use crate::value::{Structured, ValueView};
use crate::group::{with_parent, Group, GroupView, Node, NodeView};
use crate::iconid::IconId;
use crate::ids::{fresh_uuid, uuid_text, uuid_to_string};
use crate::text::{opt_view, opt_string_copy};
use crate::times::{Times, Timestamp};

verus! {

broadcast use vstd::std_specs::vec::group_vec_axioms, vstd::seq::group_seq_axioms;

/// How the steps of a path name nodes.
#[derive(Debug, Clone, Copy, PartialEq, Eq, Structural)]
pub enum SearchField {
    /// By the node's uuid, in hyphenated form.
    Uuid,
    /// By the node's title: a group's name, an entry's "Title" field.
    Title,
}

/// A node's title: a group's name, the text of an entry's "Title" field.
pub open spec fn node_title(n: NodeView) -> Option<Seq<char>> {
    match n {
        NodeView::Group(g) => g.name,
        NodeView::Entry(e) => e.field_text("Title"@),
    }
}

pub open spec fn node_uuid(n: NodeView) -> u128 {
    match n {
        NodeView::Group(g) => g.uuid,
        NodeView::Entry(e) => e.uuid,
    }
}

impl SearchField {
    pub open spec fn matches_spec(self, n: NodeView, value: Seq<char>) -> bool {
        match self {
            SearchField::Uuid => uuid_text(node_uuid(n)) == value,
            SearchField::Title => node_title(n) == Some(value),
        }
    }

    /// Whether the node is named `field_value` this way.
    pub fn matches(&self, node: &Node, field_value: &str) -> (r: bool)
        ensures
            r == self.matches_spec(node@, field_value@),
    {
        match self {
            SearchField::Uuid => {
                let text = uuid_to_string(node.get_uuid());
                text.as_str().to_owned() == field_value.to_owned()
            },
            SearchField::Title => match node {
                Node::Group(g) => match &g.name {
                    Some(n) => n.as_str().to_owned() == field_value.to_owned(),
                    None => false,
                },
                Node::Entry(e) => match e.get_title() {
                    Some(t) => t == field_value.to_owned(),
                    None => false,
                },
            },
        }
    }
}

/// The first child from `from` on that the search names `value` (a group,
/// where `groups_only`).
pub open spec fn first_named(cs: Seq<NodeView>, field: SearchField, value: Seq<char>, groups_only: bool, from: int) -> Option<int>
    decreases cs.len() - from,
{
    if from < 0 || from >= cs.len() {
        None
    } else if (!groups_only || cs[from] is Group) && field.matches_spec(cs[from], value) {
        Some(from)
    } else {
        first_named(cs, field, value, groups_only, from + 1)
    }
}

/// The node that the path leads to below `g`: every step but the last names
/// a child group, the last any child; an empty path leads to `g` itself.
pub open spec fn get_spec(g: GroupView, path: Seq<Seq<char>>, field: SearchField) -> Option<NodeView>
    decreases path.len(),
{
    if path.len() == 0 {
        Some(NodeView::Group(g))
    } else if path.len() == 1 {
        match first_named(g.children, field, path[0], false, 0) {
            Some(i) => Some(g.children[i]),
            None => None,
        }
    } else {
        match first_named(g.children, field, path[0], true, 0) {
            Some(i) => get_spec(g.children[i]->Group_0, path.drop_first(), field),
            None => None,
        }
    }
}

pub open spec fn path_view(p: Seq<&str>) -> Seq<Seq<char>> {
    Seq::new(p.len(), |i: int| p[i]@)
}

proof fn lemma_first_named_at(cs: Seq<NodeView>, field: SearchField, value: Seq<char>, groups_only: bool, from: int, i: int)
    requires
        0 <= from <= i < cs.len(),
        (!groups_only || cs[i] is Group) && field.matches_spec(cs[i], value),
        forall|j: int| from <= j < i ==> !((!groups_only || cs[j] is Group) && field.matches_spec(cs[j], value)),
    ensures
        first_named(cs, field, value, groups_only, from) == Some(i),
    decreases i - from,
{
    if from < i {
        lemma_first_named_at(cs, field, value, groups_only, from + 1, i);
    }
}

proof fn lemma_first_named_none(cs: Seq<NodeView>, field: SearchField, value: Seq<char>, groups_only: bool, from: int)
    requires
        0 <= from <= cs.len(),
        forall|j: int| from <= j < cs.len() ==> !((!groups_only || cs[j] is Group) && field.matches_spec(cs[j], value)),
    ensures
        first_named(cs, field, value, groups_only, from).is_none(),
    decreases cs.len() - from,
{
    if from < cs.len() {
        lemma_first_named_none(cs, field, value, groups_only, from + 1);
    }
}

impl Group {
    /// A new empty group: a fresh uuid, the given name, the folder icon,
    /// every timestamp now.
    pub fn new(name: &str) -> (r: Group)
        ensures
            r@.name == Some(name@),
            r@.notes.is_none(),
            r@.icon_id == Some(IconId(IconId::FOLDER)),
            r@.custom_icon_uuid.is_none(),
            r@.children.len() == 0,
            exists|t: Timestamp| r.times == Times::all_at(t),
            r@.custom_data == Map::<Seq<char>, CustomDataItemView>::empty(),
            !r@.is_expanded,
            r@.default_autotype_sequence.is_none(),
            r@.enable_autotype.is_none(),
            r@.enable_searching.is_none(),
            r@.last_top_visible_entry.is_none(),
            r.parent.is_none(),
    {
        let g = Group {
            uuid: fresh_uuid(),
            name: Some(name.to_owned()),
            notes: None,
            icon_id: Some(IconId(IconId::FOLDER)),
            custom_icon_uuid: None,
            children: Vec::new(),
            times: Times::new(),
            custom_data: CustomData { items: Vec::new() },
            is_expanded: false,
            default_autotype_sequence: None,
            enable_autotype: None,
            enable_searching: None,
            last_top_visible_entry: None,
            parent: None,
        };
        assert(g@.children.len() == 0);
        assert(g@.custom_data =~= Map::<Seq<char>, CustomDataItemView>::empty());
        g
    }

    pub fn get_uuid(&self) -> (r: u128)
        ensures
            r == self.uuid,
    {
        self.uuid
    }

    pub fn set_uuid(&mut self, uuid: u128)
        ensures
            final(self)@ == (GroupView { uuid, ..old(self)@ }),
            final(self).parent == old(self).parent,
    {
        self.uuid = uuid;
    }

    /// The group's name.
    pub fn get_title(&self) -> (r: Option<String>)
        ensures
            opt_view(r) == self@.name,
    {
        opt_string_copy(&self.name)
    }

    pub fn set_title(&mut self, title: Option<&str>)
        ensures
            final(self)@ == (GroupView {
                name: match title {
                    Some(t) => Some(t@),
                    None => None,
                },
                ..old(self)@
            }),
            final(self).parent == old(self).parent,
    {
        self.name = match title {
            Some(t) => Some(t.to_owned()),
            None => None,
        };
    }

    pub fn set_name(&mut self, name: &str)
        ensures
            final(self)@ == (GroupView { name: Some(name@), ..old(self)@ }),
            final(self).parent == old(self).parent,
    {
        self.name = Some(name.to_owned());
    }

    pub fn get_notes(&self) -> (r: Option<String>)
        ensures
            opt_view(r) == self@.notes,
    {
        opt_string_copy(&self.notes)
    }

    pub fn set_notes(&mut self, notes: Option<&str>)
        ensures
            final(self)@ == (GroupView {
                notes: match notes {
                    Some(t) => Some(t@),
                    None => None,
                },
                ..old(self)@
            }),
            final(self).parent == old(self).parent,
    {
        self.notes = match notes {
            Some(t) => Some(t.to_owned()),
            None => None,
        };
    }

    pub fn get_icon_id(&self) -> (r: Option<IconId>)
        ensures
            r == self.icon_id,
    {
        self.icon_id
    }

    pub fn set_icon_id(&mut self, icon_id: Option<IconId>)
        ensures
            final(self)@ == (GroupView { icon_id, ..old(self)@ }),
            final(self).parent == old(self).parent,
    {
        self.icon_id = icon_id;
    }

    pub fn get_custom_icon_uuid(&self) -> (r: Option<u128>)
        ensures
            r == self.custom_icon_uuid,
    {
        self.custom_icon_uuid
    }

    pub fn get_times(&self) -> (r: &Times)
        ensures
            *r == self.times,
    {
        &self.times
    }

    pub fn get_times_mut(&mut self) -> (r: &mut Times)
        ensures
            *r == old(self).times,
            *final(self) == (Group { times: *final(r), ..*old(self) }),
    {
        &mut self.times
    }

    pub fn get_parent(&self) -> (r: Option<u128>)
        ensures
            r == self.parent,
    {
        self.parent
    }

    pub fn set_parent(&mut self, parent: Option<u128>)
        ensures
            final(self)@ == old(self)@,
            final(self).parent == parent,
    {
        self.parent = parent;
    }

    /// Copies of the children, in order.
    pub fn get_children(&self) -> (r: Vec<Node>)
        ensures
            r@.len() == self@.children.len(),
            forall|i: int| 0 <= i < r@.len() ==> (#[trigger] r@[i])@ == self@.children[i],
    {
        let mut r: Vec<Node> = Vec::new();
        let mut i: usize = 0;
        while i < self.children.len()
            invariant
                0 <= i <= self.children@.len(),
                r@.len() == i,
                forall|j: int| 0 <= j < i ==> (#[trigger] r@[j])@ == self@.children[j],
            decreases self.children.len() - i,
        {
            let mut c = self.children[i].duplicate();
            c.set_parent(Some(self.uuid));
            r.push(c);
            i += 1;
        }
        r
    }

    /// Copies of the child entries, in order.
    pub fn entries(&self) -> (r: Vec<Entry>)
        ensures
            r@.len() == self@.children.filter(|n: NodeView| n is Entry).len(),
            forall|i: int| 0 <= i < r@.len() ==> NodeView::Entry((#[trigger] r@[i])@) == self@.children.filter(|n: NodeView| n is Entry)[i],
    {
        let ghost cs = self@.children;
        let ghost f = |n: NodeView| n is Entry;
        let mut r: Vec<Entry> = Vec::new();
        let mut i: usize = 0;
        assert(cs.subrange(0, 0).filter(f) =~= Seq::<NodeView>::empty());
        while i < self.children.len()
            invariant
                0 <= i <= self.children@.len(),
                cs == self@.children,
                f == (|n: NodeView| n is Entry),
                r@.len() == cs.subrange(0, i as int).filter(f).len(),
                forall|j: int| 0 <= j < r@.len() ==> NodeView::Entry((#[trigger] r@[j])@) == cs.subrange(0, i as int).filter(f)[j],
            decreases self.children.len() - i,
        {
            let ghost pre = cs.subrange(0, i as int);
            let ghost post = cs.subrange(0, i as int + 1);
            assert(post.drop_last() =~= pre);
            proof { reveal(Seq::filter); }
            assert(cs[i as int] == self.children@[i as int]@);
            match &self.children[i] {
                Node::Entry(e) => {
                    let mut c = e.duplicate();
                    c.parent = Some(self.uuid);
                    r.push(c);
                    assert(post.filter(f) == pre.filter(f).push(cs[i as int]));
                },
                Node::Group(_) => {
                    assert(post.filter(f) == pre.filter(f));
                },
            }
            i += 1;
        }
        assert(cs.subrange(0, cs.len() as int) =~= cs);
        r
    }

    /// Copies of the child groups, in order.
    pub fn groups(&self) -> (r: Vec<Group>)
        ensures
            r@.len() == self@.children.filter(|n: NodeView| n is Group).len(),
            forall|i: int| 0 <= i < r@.len() ==> NodeView::Group((#[trigger] r@[i])@) == self@.children.filter(|n: NodeView| n is Group)[i],
    {
        let ghost cs = self@.children;
        let ghost f = |n: NodeView| n is Group;
        let mut r: Vec<Group> = Vec::new();
        let mut i: usize = 0;
        assert(cs.subrange(0, 0).filter(f) =~= Seq::<NodeView>::empty());
        while i < self.children.len()
            invariant
                0 <= i <= self.children@.len(),
                cs == self@.children,
                f == (|n: NodeView| n is Group),
                r@.len() == cs.subrange(0, i as int).filter(f).len(),
                forall|j: int| 0 <= j < r@.len() ==> NodeView::Group((#[trigger] r@[j])@) == cs.subrange(0, i as int).filter(f)[j],
            decreases self.children.len() - i,
        {
            let ghost pre = cs.subrange(0, i as int);
            let ghost post = cs.subrange(0, i as int + 1);
            assert(post.drop_last() =~= pre);
            proof { reveal(Seq::filter); }
            assert(cs[i as int] == self.children@[i as int]@);
            match &self.children[i] {
                Node::Group(g) => {
                    let mut c = g.duplicate();
                    c.parent = Some(self.uuid);
                    r.push(c);
                    assert(post.filter(f) == pre.filter(f).push(cs[i as int]));
                },
                Node::Entry(_) => {
                    assert(post.filter(f) == pre.filter(f));
                },
            }
            i += 1;
        }
        assert(cs.subrange(0, cs.len() as int) =~= cs);
        r
    }

    /// Replaces the children with `children`, this group becoming their parent.
    pub fn reset_children(&mut self, children: Vec<Node>)
        ensures
            final(self)@ == (GroupView { children: Seq::new(children@.len(), |i: int| children@[i]@), ..old(self)@ }),
            final(self).children@ == Seq::new(children@.len(), |i: int| with_parent(children@[i], Some(old(self).uuid))),
            final(self).parent == old(self).parent,
            final(self).uuid == old(self).uuid,
    {
        let ghost target = Seq::new(children@.len(), |i: int| children@[i]@);
        let ghost orig = children@;
        let mut children = children;
        let mut i: usize = 0;
        while i < children.len()
            invariant
                0 <= i <= children@.len(),
                target.len() == children@.len(),
                orig.len() == children@.len(),
                forall|j: int| 0 <= j < children@.len() ==> (#[trigger] children@[j])@ == target[j],
                forall|j: int| 0 <= j < i ==> children@[j] == with_parent(orig[j], Some(self.uuid)),
                forall|j: int| i <= j < children@.len() ==> children@[j] == orig[j],
            decreases children.len() - i,
        {
            let mut c = children.remove(i);
            c.set_parent(Some(self.uuid));
            children.insert(i, c);
            i += 1;
        }
        self.children = children;
        assert(self@.children =~= target);
        assert(self.children@ =~= Seq::new(orig.len(), |i: int| with_parent(orig[i], Some(self.uuid))));
    }

    /// The node that `path` leads to, copied: each step names a child by
    /// title (a group for every step but the last); an empty path gives
    /// this group.
    pub fn get(&self, path: &[&str]) -> (r: Option<Node>)
        ensures
            r.is_none() == get_spec(self@, path_view(path@), SearchField::Title).is_none(),
            r.is_some() ==> r.unwrap()@ == get_spec(self@, path_view(path@), SearchField::Title).unwrap(),
    {
        assert(path_view(path@).subrange(0, path@.len() as int) =~= path_view(path@));
        self.get_internal(path, 0, SearchField::Title)
    }

    /// As `get`, each step naming a node by its uuid.
    pub fn get_by_uuid(&self, path: &[&str]) -> (r: Option<Node>)
        ensures
            r.is_none() == get_spec(self@, path_view(path@), SearchField::Uuid).is_none(),
            r.is_some() ==> r.unwrap()@ == get_spec(self@, path_view(path@), SearchField::Uuid).unwrap(),
    {
        assert(path_view(path@).subrange(0, path@.len() as int) =~= path_view(path@));
        self.get_internal(path, 0, SearchField::Uuid)
    }

    fn get_internal(&self, path: &[&str], k: usize, search_field: SearchField) -> (r: Option<Node>)
        requires
            k <= path@.len(),
        ensures
            ({
                let rest = path_view(path@).subrange(k as int, path@.len() as int);
                &&& r.is_none() == get_spec(self@, rest, search_field).is_none()
                &&& r.is_some() ==> r.unwrap()@ == get_spec(self@, rest, search_field).unwrap()
            }),
        decreases path@.len() - k,
    {
        let ghost rest = path_view(path@).subrange(k as int, path@.len() as int);
        if k == path.len() {
            assert(rest.len() == 0);
            return Some(Node::Group(self.duplicate()));
        }
        let next: usize = k + 1;
        let groups_only = next < path.len();
        let value = path[k];
        assert(rest[0] == value@);
        let mut i: usize = 0;
        while i < self.children.len()
            invariant
                0 <= i <= self.children@.len(),
                k < path@.len(),
                next == k + 1,
                groups_only == (k + 1 < path@.len()),
                rest == path_view(path@).subrange(k as int, path@.len() as int),
                rest[0] == value@,
                forall|j: int| 0 <= j < i ==> !((!groups_only || self@.children[j] is Group) && search_field.matches_spec(self@.children[j], value@)),
            decreases self.children.len() - i,
        {
            assert(self@.children[i as int] == self.children@[i as int]@);
            let is_group = match &self.children[i] {
                Node::Group(_) => true,
                Node::Entry(_) => false,
            };
            if (!groups_only || is_group) && search_field.matches(&self.children[i], value) {
                proof {
                    lemma_first_named_at(self@.children, search_field, value@, groups_only, 0, i as int);
                }
                if !groups_only {
                    assert(rest.len() == 1);
                    return Some(self.children[i].duplicate());
                }
                match &self.children[i] {
                    Node::Group(g) => {
                        assert(self@.children[i as int] == NodeView::Group(g@));
                        assert(rest.drop_first() =~= path_view(path@).subrange(k + 1, path@.len() as int));
                        return g.get_internal(path, next, search_field);
                    },
                    Node::Entry(_) => {
                        return None;
                    },
                }
            }
            i += 1;
        }
        proof {
            lemma_first_named_none(self@.children, search_field, value@, groups_only, 0);
        }
        None
    }
}

impl Default for Group {
    fn default() -> (r: Group)
        ensures
            r@.name == Some("Default Group"@),
            r@.notes.is_none(),
            r@.icon_id == Some(IconId(IconId::FOLDER)),
            r@.custom_icon_uuid.is_none(),
            r@.children.len() == 0,
            exists|t: Timestamp| r.times == Times::all_at(t),
            r@.custom_data == Map::<Seq<char>, CustomDataItemView>::empty(),
            !r@.is_expanded,
            r@.default_autotype_sequence.is_none(),
            r@.enable_autotype.is_none(),
            r@.enable_searching.is_none(),
            r@.last_top_visible_entry.is_none(),
            r.parent.is_none(),
    {
        Group::new("Default Group")
    }
}

pub fn node_is_group(node: &Node) -> (r: bool)
    ensures
        r == (node@ is Group),
{
    match node {
        Node::Group(_) => true,
        Node::Entry(_) => false,
    }
}

pub fn node_is_entry(node: &Node) -> (r: bool)
    ensures
        r == (node@ is Entry),
{
    match node {
        Node::Group(_) => false,
        Node::Entry(_) => true,
    }
}

/// Whether two nodes are of the same kind and hold the same content.
pub fn node_is_equals_to(node: &Node, other: &Node) -> (r: bool)
    ensures
        r == (node@ == other@),
{
    match node {
        Node::Group(a) => match other {
            Node::Group(b) => a.equals(b),
            Node::Entry(_) => false,
        },
        Node::Entry(a) => match other {
            Node::Entry(b) => a.equals(b),
            Node::Group(_) => false,
        },
    }
}

/// Copies of the children of a group node; none for an entry.
pub fn group_get_children(group: &Node) -> (r: Option<Vec<Node>>)
    ensures
        r.is_some() == (group@ is Group),
        r.is_some() ==> r.unwrap()@.len() == group@->Group_0.children.len()
            && forall|i: int| 0 <= i < r.unwrap()@.len() ==> (#[trigger] r.unwrap()@[i])@ == group@->Group_0.children[i],
{
    match group {
        Node::Group(g) => Some(g.get_children()),
        Node::Entry(_) => None,
    }
}

/// Adds `child` to a group node at `index` (at the end where past it).
pub fn group_add_child(parent: &mut Node, child: Node, index: usize) -> (r: Result<(), crate::log::MergeError>)
    ensures
        (old(parent)@ is Group) == r.is_ok(),
        r.is_ok() ==> final(parent)@ == NodeView::Group(GroupView {
            children: old(parent)@->Group_0.children.insert(
                if index < old(parent)@->Group_0.children.len() { index as int } else { old(parent)@->Group_0.children.len() as int },
                child@,
            ),
            ..old(parent)@->Group_0
        }),
        r.is_err() ==> final(parent)@ == old(parent)@,
{
    match parent {
        Node::Group(g) => {
            g.add_child(child, index);
            Ok(())
        },
        Node::Entry(_) => Err(crate::log::MergeError::NotAGroup),
    }
}

/// Every node of the tree, depth first: a group before its children, the
/// children in order.
pub open spec fn group_nodes(g: GroupView) -> Seq<NodeView>
    decreases g, 2int,
{
    seq![NodeView::Group(g)] + children_nodes(g.children)
}

pub open spec fn children_nodes(cs: Seq<NodeView>) -> Seq<NodeView>
    decreases cs, 1int,
{
    if cs.len() == 0 {
        Seq::empty()
    } else {
        children_nodes(cs.subrange(0, cs.len() - 1)) + node_nodes(cs[cs.len() - 1])
    }
}

pub open spec fn node_nodes(n: NodeView) -> Seq<NodeView>
    decreases n, 0int,
{
    match n {
        NodeView::Entry(e) => seq![NodeView::Entry(e)],
        NodeView::Group(g) => group_nodes(g),
    }
}

/// The first of the listed nodes with the given uuid.
pub open spec fn first_node_with_uuid(s: Seq<NodeView>, uuid: u128) -> Option<NodeView>
    decreases s.len(),
{
    if s.len() == 0 {
        None
    } else if node_uuid(s[0]) == uuid {
        Some(s[0])
    } else {
        first_node_with_uuid(s.drop_first(), uuid)
    }
}

proof fn lemma_first_node_at(s: Seq<NodeView>, uuid: u128, i: int)
    requires
        0 <= i < s.len(),
        node_uuid(s[i]) == uuid,
        forall|j: int| 0 <= j < i ==> node_uuid(s[j]) != uuid,
    ensures
        first_node_with_uuid(s, uuid) == Some(s[i]),
    decreases i,
{
    if i > 0 {
        lemma_first_node_at(s.drop_first(), uuid, i - 1);
    }
}

proof fn lemma_first_node_none(s: Seq<NodeView>, uuid: u128)
    requires
        forall|j: int| 0 <= j < s.len() ==> node_uuid(s[j]) != uuid,
    ensures
        first_node_with_uuid(s, uuid).is_none(),
    decreases s.len(),
{
    if s.len() > 0 {
        lemma_first_node_none(s.drop_first(), uuid);
    }
}

pub open spec fn nodes_view(v: Seq<Node>) -> Seq<NodeView> {
    Seq::new(v.len(), |i: int| v[i]@)
}

/// Appends copies of every node of the tree below `g`, `g` first.
fn collect_nodes(g: &Group, out: &mut Vec<Node>)
    ensures
        nodes_view(final(out)@) == nodes_view(old(out)@) + group_nodes(g@),
    decreases g,
{
    let ghost start = nodes_view(out@);
    out.push(Node::Group(g.duplicate()));
    assert(nodes_view(out@) =~= start + seq![NodeView::Group(g@)]);
    let mut i: usize = 0;
    assert(children_nodes(g@.children.subrange(0, 0)) =~= Seq::<NodeView>::empty());
    while i < g.children.len()
        invariant
            0 <= i <= g.children@.len(),
            nodes_view(out@) == start + seq![NodeView::Group(g@)] + children_nodes(g@.children.subrange(0, i as int)),
        decreases g.children.len() - i,
    {
        let ghost cs = g@.children.subrange(0, i as int + 1);
        assert(cs.subrange(0, cs.len() - 1) =~= g@.children.subrange(0, i as int));
        assert(g@.children[i as int] == g.children@[i as int]@);
        let ghost before = nodes_view(out@);
        match &g.children[i] {
            Node::Entry(e) => {
                out.push(Node::Entry(e.duplicate()));
                assert(nodes_view(out@) =~= before + seq![NodeView::Entry(e@)]);
            },
            Node::Group(h) => {
                proof {
                    assert(decreases_to!(g.children => g.children@));
                    assert(decreases_to!(*g => g.children@[i as int]));
                }
                collect_nodes(h, out);
                assert(g@.children[i as int] == NodeView::Group(h@));
            },
        }
        assert(children_nodes(cs) == children_nodes(g@.children.subrange(0, i as int)) + node_nodes(g@.children[i as int]));
        assert(nodes_view(out@) =~= start + seq![NodeView::Group(g@)] + children_nodes(g@.children.subrange(0, i as int + 1)));
        i += 1;
    }
    assert(g@.children.subrange(0, g@.children.len() as int) =~= g@.children);
    assert(nodes_view(out@) =~= start + group_nodes(g@));
}

/// A copy of the node with the given uuid (the tree's root included) that
/// comes first depth first. Uuids are unique within a tree, so the order of
/// the search decides only for a malformed one.
pub fn search_node_by_uuid(root: &Group, uuid: u128) -> (r: Option<Node>)
    ensures
        r.is_none() == first_node_with_uuid(group_nodes(root@), uuid).is_none(),
        r.is_some() ==> r.unwrap()@ == first_node_with_uuid(group_nodes(root@), uuid).unwrap(),
{
    let mut all: Vec<Node> = Vec::new();
    collect_nodes(root, &mut all);
    assert(nodes_view(all@) =~= group_nodes(root@));
    let ghost s = group_nodes(root@);
    let mut i: usize = 0;
    while i < all.len()
        invariant
            0 <= i <= all@.len(),
            s == nodes_view(all@),
            s == group_nodes(root@),
            forall|j: int| 0 <= j < i ==> node_uuid(s[j]) != uuid,
        decreases all.len() - i,
    {
        assert(s[i as int] == all@[i as int]@);
        if all[i].get_uuid() == uuid {
            proof { lemma_first_node_at(s, uuid, i as int); }
            let n = all.remove(i);
            return Some(n);
        }
        i += 1;
    }
    proof { lemma_first_node_none(s, uuid); }
    None
}

/// Replaces the children of a group node, which becomes their parent.
pub fn group_reset_children(parent: &mut Node, children: Vec<Node>) -> (r: Result<(), crate::log::MergeError>)
    ensures
        (old(parent)@ is Group) == r.is_ok(),
        r.is_ok() ==> final(parent)@ == NodeView::Group(GroupView {
            children: Seq::new(children@.len(), |i: int| children@[i]@),
            ..old(parent)@->Group_0
        }),
        r.is_err() ==> final(parent)@ == old(parent)@,
{
    match parent {
        Node::Group(g) => {
            g.reset_children(children);
            Ok(())
        },
        Node::Entry(_) => Err(crate::log::MergeError::NotAGroup),
    }
}

/// Sets a plain-text field of an entry node and commits the change.
pub fn entry_set_field_and_commit(entry: &mut Node, field_name: &str, field_value: &str) -> (r: Result<(), crate::log::MergeError>)
    ensures
        (old(entry)@ is Entry) == r.is_ok(),
        r.is_ok() ==> ({
            let e = old(entry)@->Entry_0;
            let edited = EntryView { fields: e.fields.insert(field_name@, ValueView::Unprotected(field_value@)), ..e };
            &&& has_uncommitted_changes_spec(edited) ==> exists|t: Timestamp| final(entry)@ == NodeView::Entry(#[trigger] committed(edited, t))
            &&& !has_uncommitted_changes_spec(edited) ==> final(entry)@ == NodeView::Entry(edited)
        }),
        r.is_err() ==> final(entry)@ == old(entry)@,
{
    match entry {
        Node::Entry(e) => {
            e.set_field_and_commit(field_name, field_value);
            Ok(())
        },
        Node::Group(_) => Err(crate::log::MergeError::NotAnEntry),
    }
}

/// Removes, below `g`, the first node (depth first, a group before its
/// children) with the given uuid; gives the tree after the removal and the
/// node removed, or nothing where no node below `g` has the uuid.
pub open spec fn remove_first(g: GroupView, uuid: u128) -> Option<(GroupView, NodeView)>
    decreases g, g.children.len() + 1,
{
    remove_first_from(g, uuid, 0)
}

pub open spec fn remove_first_from(g: GroupView, uuid: u128, i: int) -> Option<(GroupView, NodeView)>
    decreases g, g.children.len() - i,
{
    if i < 0 || i >= g.children.len() {
        None
    } else if node_uuid(g.children[i]) == uuid {
        Some((GroupView { children: g.children.remove(i), ..g }, g.children[i]))
    } else {
        match g.children[i] {
            NodeView::Group(h) => match remove_first(h, uuid) {
                Some((h2, n)) => Some((GroupView { children: g.children.update(i, NodeView::Group(h2)), ..g }, n)),
                None => remove_first_from(g, uuid, i + 1),
            },
            NodeView::Entry(_) => remove_first_from(g, uuid, i + 1),
        }
    }
}

fn copy_group_with_children(g: &Group, children: Vec<Node>) -> (r: Group)
    ensures
        r@ == (GroupView { children: Seq::new(children@.len(), |i: int| children@[i]@), ..g@ }),
        r.parent == g.parent,
{
    let r = Group {
        uuid: g.uuid,
        name: opt_string_copy(&g.name),
        notes: opt_string_copy(&g.notes),
        icon_id: g.icon_id,
        custom_icon_uuid: g.custom_icon_uuid,
        children,
        times: g.times,
        custom_data: g.custom_data.duplicate(),
        is_expanded: g.is_expanded,
        default_autotype_sequence: opt_string_copy(&g.default_autotype_sequence),
        enable_autotype: opt_string_copy(&g.enable_autotype),
        enable_searching: opt_string_copy(&g.enable_searching),
        last_top_visible_entry: g.last_top_visible_entry,
        parent: g.parent,
    };
    assert(r@.children =~= Seq::new(children@.len(), |i: int| children@[i]@));
    r
}

/// Copies of the children, each keeping its parent.
fn children_copy(g: &Group) -> (r: Vec<Node>)
    ensures
        Seq::new(r@.len(), |i: int| r@[i]@) == g@.children,
{
    let mut r: Vec<Node> = Vec::new();
    let mut i: usize = 0;
    while i < g.children.len()
        invariant
            0 <= i <= g.children@.len(),
            r@.len() == i,
            forall|j: int| 0 <= j < i ==> (#[trigger] r@[j])@ == g@.children[j],
        decreases g.children.len() - i,
    {
        let mut c = g.children[i].duplicate();
        c.set_parent(Some(g.uuid));
        r.push(c);
        i += 1;
    }
    assert(Seq::new(r@.len(), |i: int| r@[i]@) =~= g@.children);
    r
}

fn remove_first_copy(g: &Group, uuid: u128) -> (r: Option<(Group, Node)>)
    ensures
        r.is_none() == remove_first(g@, uuid).is_none(),
        r.is_some() ==> (r.unwrap().0@, r.unwrap().1@) == remove_first(g@, uuid).unwrap(),
        r.is_some() ==> r.unwrap().0.parent == g.parent,
    decreases g,
{
    let mut i: usize = 0;
    while i < g.children.len()
        invariant
            0 <= i <= g.children@.len(),
            remove_first(g@, uuid) == remove_first_from(g@, uuid, i as int),
        decreases g.children.len() - i,
    {
        assert(g@.children[i as int] == g.children@[i as int]@);
        if g.children[i].get_uuid() == uuid {
            let mut children = children_copy(g);
            let ghost before = Seq::new(children@.len(), |k: int| children@[k]@);
            let removed = children.remove(i);
            let r = copy_group_with_children(g, children);
            assert(r@.children =~= before.remove(i as int));
            return Some((r, removed));
        }
        match &g.children[i] {
            Node::Group(h) => {
                proof {
                    assert(decreases_to!(g.children => g.children@));
                    assert(decreases_to!(*g => g.children@[i as int]));
                }
                assert(g@.children[i as int] == NodeView::Group(h@));
                match remove_first_copy(h, uuid) {
                    Some((h2, n)) => {
                        let mut children = children_copy(g);
                        let ghost before = Seq::new(children@.len(), |k: int| children@[k]@);
                        let _old = children.remove(i);
                        let mut c = Node::Group(h2);
                        c.set_parent(Some(g.uuid));
                        let ghost cv = c@;
                        children.insert(i, c);
                        let r = copy_group_with_children(g, children);
                        assert(r@.children =~= before.update(i as int, cv));
                        return Some((r, n));
                    },
                    None => {},
                }
            },
            Node::Entry(_) => {},
        }
        i += 1;
    }
    None
}

/// Removes from the tree the node with the given uuid that comes first
/// depth first, and returns it. The root itself cannot be removed.
pub fn group_remove_node_by_uuid(root: &mut Group, uuid: u128) -> (r: Result<Node, crate::log::MergeError>)
    ensures
        old(root).uuid == uuid ==> r == Err::<Node, crate::log::MergeError>(crate::log::MergeError::CannotRemoveRoot),
        old(root).uuid != uuid && remove_first(old(root)@, uuid).is_none() ==> r == Err::<Node, crate::log::MergeError>(crate::log::MergeError::NodeNotFound { uuid }),
        old(root).uuid != uuid && remove_first(old(root)@, uuid).is_some() ==> r.is_ok()
            && (final(root)@, r.unwrap()@) == remove_first(old(root)@, uuid).unwrap(),
        r.is_err() ==> final(root)@ == old(root)@,
        final(root).parent == old(root).parent,
{
    if root.uuid == uuid {
        return Err(crate::log::MergeError::CannotRemoveRoot);
    }
    match remove_first_copy(root, uuid) {
        Some((g, n)) => {
            *root = g;
            Ok(n)
        },
        None => Err(crate::log::MergeError::NodeNotFound { uuid }),
    }
}

} // verus!
