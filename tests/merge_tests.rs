use keepass_merge::entry::Entry;
use keepass_merge::group::{Group, GroupRef, Node};
use keepass_merge::log::{MergeError, MergeEventType};
use keepass_merge::nodes::node_is_equals_to;
use keepass_merge::times::Times;

/// Waits until the clock shows a later second, so that the next commit gets
/// a later last-modification time than the previous one.
fn wait_for_next_second() {
    let start = Times::now();
    while Times::now() == start {}
}

fn commit(entry: &mut Entry, name: &str, value: &str) {
    wait_for_next_second();
    entry.set_field_and_commit(name, value);
}

fn first_entry_mut(group: &mut Group) -> &mut Entry {
    for child in group.children.iter_mut() {
        if let Node::Entry(e) = child {
            return e;
        }
    }
    panic!("no entry");
}

fn first_group_mut(group: &mut Group) -> &mut Group {
    for child in group.children.iter_mut() {
        if let Node::Group(g) = child {
            return g;
        }
    }
    panic!("no group");
}

fn find_by_uuid(root: &Group, uuid: u128) -> Option<Entry> {
    root.find_entry(uuid).map(|(e, _)| e)
}

#[test]
fn test_merge_idempotence() {
    let mut destination_group = Group::new("group1");
    let mut entry = Entry::new();
    commit(&mut entry, "Title", "entry1");
    let count = destination_group.children.len();
    destination_group.add_child(Node::Entry(entry), count);

    let source_group = destination_group.duplicate();

    let merge_result = destination_group.merge(&source_group).unwrap();
    assert_eq!(merge_result.warnings.len(), 0);
    assert_eq!(merge_result.events.len(), 0);

    assert_eq!(destination_group.children.len(), 1);
    // Nothing was done, so both groups are still the same.
    assert!(destination_group.equals(&source_group));

    commit(first_entry_mut(&mut destination_group), "Title", "entry1_updated");

    let merge_result = destination_group.merge(&source_group).unwrap();
    assert_eq!(merge_result.warnings.len(), 0);
    assert_eq!(merge_result.events.len(), 0);

    let destination_group_just_after_merge = destination_group.duplicate();
    let merge_result = destination_group.merge(&source_group).unwrap();
    assert_eq!(merge_result.warnings.len(), 0);
    assert_eq!(merge_result.events.len(), 0);

    // Merging twice in a row changes nothing more.
    assert!(node_is_equals_to(
        &Node::Group(destination_group_just_after_merge),
        &Node::Group(destination_group)
    ));
}

#[test]
fn test_merge_add_new_entry() {
    let mut destination_group = Group::new("group1");
    let mut source_group = Group::new("group1");

    let mut entry = Entry::new();
    let entry_uuid = entry.get_uuid();
    commit(&mut entry, "Title", "entry1");
    source_group.add_child(Node::Entry(entry), 0);

    let merge_result = destination_group.merge(&source_group).unwrap();
    assert_eq!(merge_result.warnings.len(), 0);
    assert_eq!(merge_result.events.len(), 1);
    {
        assert_eq!(destination_group.get_children().len(), 1);
        let new_entry = find_by_uuid(&destination_group, entry_uuid);
        assert!(new_entry.is_some());
        assert_eq!(new_entry.unwrap().get_title().unwrap(), "entry1");
    }

    // Merging the same group again does not duplicate the entry.
    let merge_result = destination_group.merge(&source_group).unwrap();
    assert_eq!(merge_result.warnings.len(), 0);
    assert_eq!(merge_result.events.len(), 0);
    assert_eq!(destination_group.get_children().len(), 1);
}

#[test]
fn test_merge_add_new_non_root_entry() {
    let mut destination_group = Group::new("group1");
    let destination_sub_group = Group::new("subgroup1");
    destination_group.add_child(Node::Group(destination_sub_group), 0);

    let mut source_group = destination_group.duplicate();
    let source_sub_group = first_group_mut(&mut source_group);

    let mut entry = Entry::new();
    commit(&mut entry, "Title", "entry1");
    let count = source_sub_group.children.len();
    source_sub_group.add_child(Node::Entry(entry), count);

    let merge_result = destination_group.merge(&source_group).unwrap();
    assert_eq!(merge_result.warnings.len(), 0);
    assert_eq!(merge_result.events.len(), 1);
    let destination_entries = destination_group.get_all_entries(&vec![]);
    assert_eq!(destination_entries.len(), 1);
    let (_created_entry, created_entry_location) = destination_entries.first().unwrap();
    assert_eq!(created_entry_location.len(), 2);
}

#[test]
fn test_merge_add_new_entry_new_group() {
    let mut destination_group = Group::new("group1");
    let _destination_sub_group = Group::new("subgroup1");
    let mut source_group = Group::new("group1");
    let mut source_sub_group = Group::new("subgroup1");

    let mut entry = Entry::new();
    commit(&mut entry, "Title", "entry1");
    source_sub_group.add_child(Node::Entry(entry), 0);
    source_group.add_child(Node::Group(source_sub_group), 0);

    let merge_result = destination_group.merge(&source_group).unwrap();
    assert_eq!(merge_result.warnings.len(), 0);
    assert_eq!(merge_result.events.len(), 1);

    let destination_entries = destination_group.get_all_entries(&vec![]);
    assert_eq!(destination_entries.len(), 1);
    let (_, created_entry_location) = destination_entries.first().unwrap();
    assert_eq!(created_entry_location.len(), 2);
}

#[test]
fn test_merge_entry_relocation_existing_group() {
    let mut entry = Entry::new();
    let entry_uuid = entry.get_uuid();
    commit(&mut entry, "Title", "entry1");

    let mut destination_group = Group::new("group1");
    let mut destination_sub_group1 = Group::new("subgroup1");
    let destination_sub_group2 = Group::new("subgroup2");
    let destination_sub_group2_uuid = destination_sub_group2.get_uuid();
    destination_sub_group1.add_child(Node::Entry(entry), 0);
    destination_group.add_child(Node::Group(destination_sub_group1.duplicate()), 0);
    destination_group.add_child(Node::Group(destination_sub_group2.duplicate()), 1);

    let mut source_group = destination_group.duplicate();
    assert_eq!(source_group.get_all_entries(&vec![]).len(), 1);

    let destination_group_uuid = destination_group.get_uuid();
    let destination_sub_group1_uuid = destination_sub_group1.get_uuid();

    let location = vec![
        GroupRef::new(destination_group_uuid, ""),
        GroupRef::new(destination_sub_group1_uuid, ""),
    ];
    let mut removed_entry = source_group.remove_entry(entry_uuid, &location).unwrap();

    removed_entry.get_times_mut().set_location_changed(Some(Times::now()));
    assert!(source_group.get_all_entries(&vec![]).is_empty());
    removed_entry.update_history();

    let location = vec![
        GroupRef::new(destination_group_uuid, ""),
        GroupRef::new(destination_sub_group2_uuid, ""),
    ];
    source_group.insert_entry(removed_entry, &location, Times::new()).unwrap();

    let merge_result = destination_group.merge(&source_group).unwrap();
    assert_eq!(merge_result.warnings.len(), 0);
    assert_eq!(merge_result.events.len(), 1);

    let destination_entries = destination_group.get_all_entries(&vec![]);
    assert_eq!(destination_entries.len(), 1);
    let (_moved_entry, moved_entry_location) = destination_entries.first().unwrap();
    assert_eq!(moved_entry_location.len(), 2);
    assert_eq!(moved_entry_location[0].name, "group1".to_string());
    assert_eq!(moved_entry_location[1].name, "subgroup2".to_string());
}

#[test]
fn test_merge_entry_relocation_new_group() {
    let mut entry = Entry::new();
    commit(&mut entry, "Title", "entry1");

    let mut destination_group = Group::new("group1");
    let mut destination_sub_group = Group::new("subgroup1");
    destination_sub_group.add_child(Node::Entry(entry.duplicate()), 0);
    destination_group.add_child(Node::Group(destination_sub_group), 0);

    let mut source_group = destination_group.duplicate();
    let mut source_sub_group = Group::new("subgroup2");
    wait_for_next_second();
    entry.get_times_mut().set_location_changed(Some(Times::now()));
    entry.update_history();
    source_sub_group.add_child(Node::Entry(entry), 0);
    source_group.reset_children(vec![]);
    source_group.add_child(Node::Group(source_sub_group), 0);

    let merge_result = destination_group.merge(&source_group).unwrap();
    assert_eq!(merge_result.warnings.len(), 0);
    assert_eq!(merge_result.events.len(), 1);

    let destination_entries = destination_group.get_all_entries(&vec![]);
    assert_eq!(destination_entries.len(), 1);
    let (_, created_entry_location) = destination_entries.first().unwrap();
    assert_eq!(created_entry_location.len(), 2);
    assert_eq!(created_entry_location[0].name, "group1".to_string());
    assert_eq!(created_entry_location[1].name, "subgroup2".to_string());
}

#[test]
fn test_update_in_destination_no_conflict() {
    let mut destination_group = Group::new("group1");

    let mut entry = Entry::new();
    commit(&mut entry, "Title", "entry1");
    destination_group.add_child(Node::Entry(entry), 0);

    let source_group = destination_group.duplicate();

    commit(first_entry_mut(&mut destination_group), "Title", "entry1_updated");

    let merge_result = destination_group.merge(&source_group).unwrap();
    assert_eq!(merge_result.warnings.len(), 0);
    assert_eq!(merge_result.events.len(), 0);

    let entry = destination_group.entries()[0].duplicate();
    assert_eq!(entry.get_title(), Some("entry1_updated".to_string()));
}

#[test]
fn test_update_in_source_no_conflict() {
    let mut destination_group = Group::new("group1");

    let mut entry = Entry::new();
    commit(&mut entry, "Title", "entry1");
    destination_group.add_child(Node::Entry(entry), 0);

    let mut source_group = destination_group.duplicate();

    commit(first_entry_mut(&mut source_group), "Title", "entry1_updated");

    let merge_result = destination_group.merge(&source_group).unwrap();
    assert_eq!(merge_result.warnings.len(), 0);
    assert_eq!(merge_result.events.len(), 1);

    let entry = destination_group.entries()[0].duplicate();
    assert_eq!(entry.get_title(), Some("entry1_updated".to_string()));
}

#[test]
fn test_update_with_conflicts() {
    let mut destination_group = Group::new("group1");

    let mut entry = Entry::new();
    commit(&mut entry, "Title", "entry1");
    destination_group.add_child(Node::Entry(entry), 0);

    let mut source_group = destination_group.duplicate();

    commit(first_entry_mut(&mut destination_group), "Title", "entry1_updated_from_destination");
    commit(first_entry_mut(&mut source_group), "Title", "entry1_updated_from_source");

    let merge_result = destination_group.merge(&source_group).unwrap();
    assert_eq!(merge_result.warnings.len(), 0);
    assert_eq!(merge_result.events.len(), 1);

    let entry = destination_group.entries()[0].duplicate();
    assert_eq!(entry.get_title(), Some("entry1_updated_from_source".to_string()));

    let merged_history = entry.get_history().as_ref().unwrap().duplicate();
    assert!(merged_history.is_ordered());
    assert_eq!(merged_history.get_entries().len(), 3);
    let merged_entry = &merged_history.get_entries()[1];
    assert_eq!(merged_entry.get_title(), Some("entry1_updated_from_destination".to_string()));

    // Merging again changes nothing.
    let destination_group_dup = destination_group.duplicate();
    let merge_result = destination_group.merge(&destination_group_dup).unwrap();
    assert_eq!(merge_result.warnings.len(), 0);
    assert_eq!(merge_result.events.len(), 0);
}

#[test]
fn get() {
    let mut root = Group::new("Root");

    let mut general_group = Group::new("General");
    let mut sample_entry = Entry::new();
    sample_entry.set_title(Some("Sample Entry #2"));
    general_group.add_child(Node::Entry(sample_entry), 0);
    root.add_child(Node::Group(general_group), 0);

    let empty: [&str; 0] = [];
    assert!(root.get(&["General", "Sample Entry #2"]).is_some());
    assert!(root.get(&["General"]).is_some());
    assert!(root.get(&["Invalid Group"]).is_none());
    assert!(root.get(&empty).is_some());
}

fn as_strs(v: &Vec<String>) -> Vec<&str> {
    v.iter().map(|s| s.as_str()).collect()
}

#[test]
fn get_by_uuid() {
    let mut root = Group::new("Root");

    let mut general_group = Group::new("General");
    let general_group_uuid = uuid::Uuid::from_u128(general_group.get_uuid()).to_string();
    let mut sample_entry = Entry::new();
    let sample_entry_uuid = uuid::Uuid::from_u128(sample_entry.get_uuid()).to_string();
    sample_entry.set_title(Some("Sample Entry #2"));
    general_group.add_child(Node::Entry(sample_entry), 0);
    root.add_child(Node::Group(general_group), 0);

    let invalid_uuid = uuid::Uuid::new_v4().to_string();

    // With references to the uuids.
    let group_path: [&str; 1] = [general_group_uuid.as_ref()];
    let entry_path: [&str; 2] = [general_group_uuid.as_ref(), sample_entry_uuid.as_ref()];
    let invalid_path: [&str; 1] = [invalid_uuid.as_ref()];
    let empty_path: [&str; 0] = [];

    assert!(root.get_by_uuid(&group_path).is_some());
    assert!(root.get_by_uuid(&entry_path).is_some());
    assert!(root.get_by_uuid(&invalid_path).is_none());
    assert!(root.get_by_uuid(&empty_path).is_some());

    // With owned copies of the uuids.
    let group_path = vec![general_group_uuid.clone()];
    let entry_path = vec![general_group_uuid.clone(), sample_entry_uuid.clone()];
    let invalid_path = vec![invalid_uuid.clone()];
    let empty_path: Vec<String> = vec![];

    assert!(root.get_by_uuid(&as_strs(&group_path)).is_some());
    assert!(root.get_by_uuid(&as_strs(&entry_path)).is_some());
    assert!(root.get_by_uuid(&as_strs(&invalid_path)).is_none());
    assert!(root.get_by_uuid(&as_strs(&empty_path)).is_some());
}

#[test]
fn creation_reaches_entry_at_path() {
    let mut destination = Group::new("root");
    let mut source = destination.duplicate();
    let mut group1 = Group::new("group1");
    let mut entry = Entry::new();
    commit(&mut entry, "Title", "entry1");
    let entry_uuid = entry.get_uuid();
    group1.add_child(Node::Entry(entry), 0);
    source.add_child(Node::Group(group1), 0);

    let log = destination.merge(&source).unwrap();
    assert_eq!(log.warnings.len(), 0);
    assert_eq!(log.events.len(), 1);
    assert_eq!(log.events[0].event_type, MergeEventType::EntryCreated);
    assert_eq!(log.events[0].node_uuid, entry_uuid);
    match destination.get(&["group1", "entry1"]) {
        Some(Node::Entry(e)) => assert_eq!(e.get_uuid(), entry_uuid),
        _ => panic!("entry1 not found under group1"),
    }
}

#[test]
fn relocation_moves_entry_only_once() {
    let mut entry = Entry::new();
    commit(&mut entry, "Title", "entry1");
    let entry_uuid = entry.get_uuid();

    let mut destination = Group::new("group1");
    let mut sub1 = Group::new("subgroup1");
    let sub2 = Group::new("subgroup2");
    sub1.add_child(Node::Entry(entry), 0);
    destination.add_child(Node::Group(sub1), 0);
    destination.add_child(Node::Group(sub2), 1);
    let mut source = destination.duplicate();

    let sub1_ref = source.get_all_entries(&vec![])[0].1.iter().map(|r| r.duplicate()).collect::<Vec<GroupRef>>();
    let mut moved = source.remove_entry(entry_uuid, &sub1_ref).unwrap();
    wait_for_next_second();
    moved.get_times_mut().set_location_changed(Some(Times::now()));
    moved.update_history();
    let sub2_ref = vec![source.to_ref(), match &source.children[1] {
        Node::Group(g) => g.to_ref(),
        Node::Entry(_) => panic!("expected a group"),
    }];
    source.insert_entry(moved, &sub2_ref, Times::new()).unwrap();

    let log = destination.merge(&source).unwrap();
    assert_eq!(log.events.len(), 1);
    assert_eq!(log.events[0].event_type, MergeEventType::EntryLocationUpdated);
    assert!(destination.get(&["subgroup2", "entry1"]).is_some());
    assert!(destination.get(&["subgroup1", "entry1"]).is_none());
}

#[test]
fn equal_trees_merge_silently_either_way() {
    let mut a = Group::new("root");
    let mut entry = Entry::new();
    commit(&mut entry, "Title", "x");
    a.add_child(Node::Entry(entry), 0);
    let mut b = a.duplicate();
    let log = a.merge(&b.duplicate()).unwrap();
    assert_eq!((log.events.len(), log.warnings.len()), (0, 0));
    let log = b.merge(&a).unwrap();
    assert_eq!((log.events.len(), log.warnings.len()), (0, 0));
    assert!(a.equals(&b));
}

#[test]
fn equal_timestamps_with_different_content_fail() {
    let mut destination = Group::new("root");
    let mut entry = Entry::new();
    commit(&mut entry, "Title", "same time");
    destination.add_child(Node::Entry(entry), 0);
    let mut source = destination.duplicate();
    let uuid = source.entries()[0].get_uuid();
    // Change the source's content without moving its last-modification time.
    first_entry_mut(&mut source).set_title(Some("changed"));
    assert_eq!(destination.merge(&source).err(), Some(MergeError::EntriesDiverged { uuid }));
}

#[test]
fn missing_location_times_give_warnings() {
    let mut destination = Group::new("root");
    let mut entry = Entry::new();
    entry.get_times_mut().set_location_changed(None);
    destination.add_child(Node::Entry(entry), 0);
    let source = destination.duplicate();
    let log = destination.merge(&source).unwrap();
    assert_eq!(log.warnings.len(), 2);
    assert!(log.warnings[0].ends_with("did not have a location updated timestamp"));
    assert_eq!(log.events.len(), 0);
}

#[test]
fn insert_entry_into_empty_location_fails() {
    let mut g = Group::new("root");
    assert_eq!(g.insert_entry(Entry::new(), &vec![], Times::new()), Err(MergeError::EmptyLocation));
    assert_eq!(g.remove_entry(1, &vec![]).err(), Some(MergeError::EmptyLocation));
}

#[test]
fn remove_entry_reports_missing_group_and_entry() {
    let mut g = Group::new("root");
    let here = vec![g.to_ref()];
    assert_eq!(
        g.remove_entry(7, &here).err(),
        Some(MergeError::EntryNotFound { uuid: 7, group: "root".to_string() })
    );
    let elsewhere = vec![g.to_ref(), GroupRef::new(99, "nowhere")];
    assert_eq!(g.remove_entry(7, &elsewhere).err(), Some(MergeError::GroupNotFound));
}

#[test]
fn created_shells_keep_source_uuids_and_names() {
    let mut g = Group::new("root");
    let path = vec![g.to_ref(), GroupRef::new(10, "a"), GroupRef::new(11, "b")];
    let mut e = Entry::new();
    e.set_title(Some("leaf"));
    g.insert_entry(e, &path, Times::new()).unwrap();
    match &g.children[0] {
        Node::Group(a) => {
            assert_eq!((a.uuid, a.get_title()), (10, Some("a".to_string())));
            match &a.children[0] {
                Node::Group(b) => assert_eq!((b.uuid, b.get_title()), (11, Some("b".to_string()))),
                Node::Entry(_) => panic!("expected a group"),
            }
        }
        Node::Entry(_) => panic!("expected a group"),
    }
    assert!(g.get(&["a", "b", "leaf"]).is_some());
}

#[test]
fn replace_entry_keeps_the_slot() {
    let mut g = Group::new("root");
    let mut e = Entry::new();
    e.set_title(Some("old"));
    let uuid = e.get_uuid();
    g.add_child(Node::Entry(e), 0);
    let mut newer = g.entries()[0].duplicate();
    newer.set_title(Some("new"));
    assert!(g.replace_entry(&newer));
    assert_eq!(g.entries()[0].get_title(), Some("new".to_string()));
    assert_eq!(g.entries()[0].get_parent(), Some(g.uuid));
    assert_eq!(g.entries()[0].get_uuid(), uuid);
    let mut stranger = Entry::new();
    stranger.set_uuid(12345);
    assert!(!g.replace_entry(&stranger));
}

#[test]
fn merge_at_uses_the_given_time_for_missing_destination_times() {
    let mut destination = Group::new("root");
    let mut entry = Entry::new();
    entry.get_times_mut().set_location_changed(None);
    let uuid = entry.get_uuid();
    destination.add_child(Node::Entry(entry), 0);
    let mut source = destination.duplicate();
    first_entry_mut(&mut source).get_times_mut().set_location_changed(Some(100));
    // The destination's missing time counts as 50, earlier than the source's 100: relocation.
    let log = destination.merge_at(&source, 50, Times::new()).unwrap();
    assert_eq!(log.warnings.len(), 1);
    assert_eq!(log.events.len(), 1);
    assert_eq!(log.events[0].event_type, MergeEventType::EntryLocationUpdated);
    assert_eq!(log.events[0].node_uuid, uuid);
    let mut destination = source.duplicate();
    first_entry_mut(&mut destination).get_times_mut().set_location_changed(None);
    // Counted as 200, later than the source's 100: no relocation; the two
    // versions then differ with equal modification times, which is fatal.
    assert_eq!(destination.merge_at(&source, 200, Times::new()).err(), Some(MergeError::EntriesDiverged { uuid }));
}

#[test]
fn repeated_merge_with_newer_source_is_a_no_op() {
    let mut destination_group = Group::new("group1");
    let mut entry = Entry::new();
    commit(&mut entry, "Title", "entry1");
    destination_group.add_child(Node::Entry(entry), 0);
    let mut source_group = destination_group.duplicate();
    commit(first_entry_mut(&mut destination_group), "Title", "from_destination");
    commit(first_entry_mut(&mut source_group), "Title", "from_source");

    let log = destination_group.merge(&source_group).unwrap();
    assert_eq!(log.events.len(), 1);
    let after_first = destination_group.duplicate();

    let log = destination_group.merge(&source_group).unwrap();
    assert_eq!(log.events.len(), 0);
    assert_eq!(log.warnings.len(), 0);
    assert!(destination_group.equals(&after_first));
}

#[test]
fn inserted_entry_records_its_group_as_parent() {
    let mut g = Group::new("root");
    let path = vec![g.to_ref(), GroupRef::new(10, "a")];
    g.insert_entry(Entry::new(), &path, Times::new()).unwrap();
    match &g.children[0] {
        Node::Group(a) => {
            assert_eq!(a.get_parent(), Some(g.get_uuid()));
            match &a.children[0] {
                Node::Entry(e) => assert_eq!(e.get_parent(), Some(10)),
                Node::Group(_) => panic!("expected an entry"),
            }
        }
        Node::Entry(_) => panic!("expected a group"),
    }
}

#[test]
fn default_group_is_an_empty_folder() {
    let g = Group::default();
    assert_eq!(g.get_title(), Some("Default Group".to_string()));
    assert_eq!(g.get_icon_id(), Some(keepass_merge::iconid::IconId(keepass_merge::iconid::IconId::FOLDER)));
    assert!(g.children.is_empty());
    assert!(g.get_times().get_last_modification().is_some());
    assert_eq!(g.get_parent(), None);
}

#[test]
fn identical_entries_in_different_trees_merge_silently_both_ways() {
    let mut entry = Entry::new();
    commit(&mut entry, "Title", "same");
    let mut a = Group::new("left");
    let mut b = Group::new("right");
    a.add_child(Node::Entry(entry.duplicate()), 0);
    b.add_child(Node::Entry(entry), 0);
    let a_before = a.duplicate();
    let b_before = b.duplicate();
    let log = a.merge(&b_before).unwrap();
    assert_eq!((log.events.len(), log.warnings.len()), (0, 0));
    assert!(a.equals(&a_before));
    let log = b.merge(&a_before).unwrap();
    assert_eq!((log.events.len(), log.warnings.len()), (0, 0));
    assert!(b.equals(&b_before));
}
