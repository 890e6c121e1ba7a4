use keepass_merge::color::Color;
use keepass_merge::deleted::DeletedObjects;
use keepass_merge::entry::Entry;
use keepass_merge::format::DatabaseVersion;
use keepass_merge::group::{Group, Node};
use keepass_merge::log::MergeError;
use keepass_merge::nodes::{
    entry_set_field_and_commit, group_add_child, group_remove_node_by_uuid, group_reset_children, node_is_entry,
    node_is_group, search_node_by_uuid,
};
use keepass_merge::purge::purge_history;
use keepass_merge::times::{get_epoch_baseline, Times};
use keepass_merge::value::{Structured, Value};
use secstr::SecStr;

#[test]
fn color_parses_hex_triplets() {
    let c = Color::from_str("#C0FFEE").unwrap();
    assert_eq!((c.r, c.g, c.b), (0xc0, 0xff, 0xee));
    let c = Color::from_str("#1C1357").unwrap();
    assert_eq!((c.r, c.g, c.b), (0x1c, 0x13, 0x57));
    assert!(Color::from_str("C0FFEE").is_err());
    assert!(Color::from_str("#C0FFE").is_err());
    assert!(Color::from_str("#C0FFEG").is_err());
    assert!(Color::from_str("#######").is_err());
    // As u64::from_str_radix reads it: a leading '+' is accepted.
    let c = Color::from_str("#+12345").unwrap();
    assert_eq!((c.r, c.g, c.b), (0x01, 0x23, 0x45));
}

#[test]
fn color_prints_without_padding() {
    assert_eq!(Color { r: 0xc0, g: 0xff, b: 0xee }.to_string(), "#c0ffee");
    assert_eq!(Color { r: 1, g: 0, b: 2 }.to_string(), "#102");
}

#[test]
fn version_names() {
    assert_eq!(DatabaseVersion::KDB3(1).to_string(), "KDBX3.1");
    assert_eq!(DatabaseVersion::KDB4(0).to_string(), "KDBX4.0");
    assert_eq!(DatabaseVersion::KDB4(123).to_string(), "KDBX4.123");
    assert_eq!(DatabaseVersion::KDB(5).to_string(), "KDB");
    assert_eq!(DatabaseVersion::KDB2(5).to_string(), "KDBX2");
}

#[test]
fn deleted_objects_keep_one_record_per_uuid() {
    let mut d = DeletedObjects::new();
    d.add(1);
    d.add(2);
    d.add(1);
    assert_eq!(d.objects.len(), 2);
    assert_eq!(d.objects[0].uuid, 1);
    assert_eq!(d.objects[1].uuid, 2);
    assert!(d.objects[0].deletion_time >= d.objects[1].deletion_time);
}

#[test]
fn epoch_values() {
    assert_eq!(Times::epoch(), 0);
    assert_eq!(get_epoch_baseline(), -62135596800);
    assert!(Times::now() > 1_600_000_000);
}

#[test]
fn purge_drops_every_history() {
    let mut root = Group::new("root");
    let mut sub = Group::new("sub");
    let mut a = Entry::new();
    a.set_title(Some("a"));
    a.update_history();
    let a_uuid = a.get_uuid();
    let b = Entry::new();
    sub.add_child(Node::Entry(a), 0);
    sub.add_child(Node::Entry(b), 1);
    root.add_child(Node::Group(sub), 0);
    let report = purge_history(&mut root);
    assert_eq!(report, vec![(a_uuid, 1)]);
    for (e, _) in root.get_all_entries(&vec![]) {
        assert!(e.get_history().is_none());
    }
}

#[test]
fn search_finds_groups_and_entries() {
    let mut root = Group::new("root");
    let sub = Group::new("sub");
    let sub_uuid = sub.get_uuid();
    let e = Entry::new();
    let e_uuid = e.get_uuid();
    root.add_child(Node::Group(sub), 0);
    root.add_child(Node::Entry(e), 1);
    assert!(node_is_group(&search_node_by_uuid(&root, sub_uuid).unwrap()));
    assert!(node_is_entry(&search_node_by_uuid(&root, e_uuid).unwrap()));
    assert!(node_is_group(&search_node_by_uuid(&root, root.get_uuid()).unwrap()));
    assert!(search_node_by_uuid(&root, 5).is_none());
}

#[test]
fn protected_values_compare_by_content() {
    let a = Value::Protected(SecStr::new(b"abc".to_vec()));
    let b = Value::Protected(SecStr::new(b"abc".to_vec()));
    let c = Value::Protected(SecStr::new(b"abd".to_vec()));
    assert!(a.same_as(&b));
    assert!(!a.same_as(&c));
    assert!(!a.same_as(&Value::Unprotected("abc".to_string())));
    assert!(a.duplicate().same_as(&a));
}

#[test]
fn add_child_sets_parent_and_clamps_index() {
    let mut g = Group::new("g");
    g.add_child(Node::Entry(Entry::new()), 10);
    let mut t = Entry::new();
    t.set_title(Some("first"));
    g.add_child(Node::Entry(t), 0);
    let entries = g.entries();
    assert_eq!(entries.len(), 2);
    assert_eq!(entries[0].get_title(), Some("first".to_string()));
    match &g.children[0] {
        Node::Entry(e) => assert_eq!(e.get_parent(), Some(g.get_uuid())),
        Node::Group(_) => panic!("expected an entry"),
    }
}

#[test]
fn duplicate_keeps_uuids_and_clears_root_parent() {
    let mut root = Group::new("root");
    root.set_parent(Some(77));
    let mut sub = Group::new("sub");
    sub.add_child(Node::Entry(Entry::new()), 0);
    root.add_child(Node::Group(sub), 0);
    let copy = root.duplicate();
    assert!(copy.equals(&root));
    assert_eq!(copy.get_parent(), None);
    assert_eq!(copy.get_uuid(), root.get_uuid());
    match &copy.children[0] {
        Node::Group(g) => assert_eq!(g.get_parent(), Some(copy.get_uuid())),
        Node::Entry(_) => panic!("expected a group"),
    }
}

#[test]
fn node_level_helpers_refuse_the_wrong_kind() {
    let mut entry_node = Node::Entry(Entry::new());
    assert_eq!(group_add_child(&mut entry_node, Node::Entry(Entry::new()), 0), Err(MergeError::NotAGroup));
    assert_eq!(group_reset_children(&mut entry_node, vec![]), Err(MergeError::NotAGroup));
    let mut group_node = Node::Group(Group::new("g"));
    assert_eq!(entry_set_field_and_commit(&mut group_node, "Title", "x"), Err(MergeError::NotAnEntry));
    assert_eq!(group_add_child(&mut group_node, Node::Entry(Entry::new()), 0), Ok(()));
    assert_eq!(entry_set_field_and_commit(&mut entry_node, "Title", "x"), Ok(()));
    match &entry_node {
        Node::Entry(e) => assert_eq!(e.get_title(), Some("x".to_string())),
        Node::Group(_) => panic!("expected an entry"),
    }
}

#[test]
fn remove_node_by_uuid_anywhere() {
    let mut root = Group::new("root");
    let mut sub = Group::new("sub");
    let e = Entry::new();
    let e_uuid = e.get_uuid();
    sub.add_child(Node::Entry(e), 0);
    let sub_uuid = sub.get_uuid();
    root.add_child(Node::Group(sub), 0);
    let root_uuid = root.get_uuid();
    assert_eq!(group_remove_node_by_uuid(&mut root, root_uuid).err(), Some(MergeError::CannotRemoveRoot));
    assert_eq!(group_remove_node_by_uuid(&mut root, 3).err(), Some(MergeError::NodeNotFound { uuid: 3 }));
    let removed = group_remove_node_by_uuid(&mut root, e_uuid).unwrap();
    assert!(node_is_entry(&removed));
    assert!(search_node_by_uuid(&root, e_uuid).is_none());
    assert!(search_node_by_uuid(&root, sub_uuid).is_some());
    let removed = group_remove_node_by_uuid(&mut root, sub_uuid).unwrap();
    assert!(node_is_group(&removed));
    assert_eq!(root.children.len(), 0);
}
