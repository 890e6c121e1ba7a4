use keepass_merge::entry::{Entry, History};
use keepass_merge::keyed::keyed_set;
use keepass_merge::log::{MergeError, MergeLog, MergeEventType};
use keepass_merge::merge::reconcile_entry;
use keepass_merge::times::Times;
use keepass_merge::value::Value;
use secstr::SecStr;

fn wait_for_next_second() {
    let start = Times::now();
    while Times::now() == start {}
}

fn field<'a>(entry: &'a Entry, name: &str) -> &'a Value {
    &entry.fields.iter().find(|(k, _)| k == name).unwrap().1
}

#[test]
fn byte_values() {
    let mut entry = Entry::new();
    keyed_set(&mut entry.fields, "a-bytes".to_string(), Value::Bytes(vec![1, 2, 3]));
    keyed_set(&mut entry.fields, "a-unprotected".to_string(), Value::Unprotected("asdf".to_string()));
    keyed_set(
        &mut entry.fields,
        "a-protected".to_string(),
        Value::Protected(SecStr::new("asdf".as_bytes().to_vec())),
    );

    assert_eq!(entry.get_bytes("a-bytes"), Some(vec![1, 2, 3]));
    assert_eq!(entry.get_bytes("a-unprotected"), None);
    assert_eq!(entry.get_bytes("a-protected"), None);

    assert_eq!(entry.get("a-bytes"), None);

    assert!(!field(&entry, "a-bytes").is_empty());
}

#[test]
fn update_history() {
    let mut entry = Entry::new();
    let mut last_modification_time = entry.get_times().get_last_modification().unwrap();

    keyed_set(&mut entry.fields, "Username".to_string(), Value::Unprotected("user".to_string()));
    // Wait for a later second, so that the commit gets a new time.
    wait_for_next_second();

    assert!(entry.update_history());
    assert!(entry.get_history().is_some());
    assert_eq!(entry.get_history().as_ref().unwrap().get_entries().len(), 1);
    assert_ne!(entry.get_times().get_last_modification().unwrap(), last_modification_time);
    last_modification_time = entry.get_times().get_last_modification().unwrap();
    wait_for_next_second();

    // Committing without a change does nothing.
    assert!(!entry.update_history());
    assert!(entry.get_history().is_some());
    assert_eq!(entry.get_history().as_ref().unwrap().get_entries().len(), 1);
    assert_eq!(entry.get_times().get_last_modification().unwrap(), last_modification_time);

    entry.set_title(Some("first title"));

    assert!(entry.update_history());
    assert!(entry.get_history().is_some());
    assert_eq!(entry.get_history().as_ref().unwrap().get_entries().len(), 2);
    assert_ne!(entry.get_times().get_last_modification().unwrap(), last_modification_time);
    last_modification_time = entry.get_times().get_last_modification().unwrap();
    wait_for_next_second();

    assert!(!entry.update_history());
    assert!(entry.get_history().is_some());
    assert_eq!(entry.get_history().as_ref().unwrap().get_entries().len(), 2);
    assert_eq!(entry.get_times().get_last_modification().unwrap(), last_modification_time);

    entry.set_title(Some("second title"));

    assert!(entry.update_history());
    assert!(entry.get_history().is_some());
    assert_eq!(entry.get_history().as_ref().unwrap().get_entries().len(), 3);
    assert_ne!(entry.get_times().get_last_modification().unwrap(), last_modification_time);
    last_modification_time = entry.get_times().get_last_modification().unwrap();
    wait_for_next_second();

    assert!(!entry.update_history());
    assert!(entry.get_history().is_some());
    assert_eq!(entry.get_history().as_ref().unwrap().get_entries().len(), 3);
    assert_eq!(entry.get_times().get_last_modification().unwrap(), last_modification_time);

    let last_history_entry = entry.get_history().as_ref().unwrap().get_entries().first().unwrap();
    assert_eq!(last_history_entry.get_title().unwrap(), "second title");

    for history_entry in entry.get_history().as_ref().unwrap().get_entries() {
        assert!(history_entry.get_history().is_none());
    }
}

fn stamped(title: &str, t: i64) -> Entry {
    let mut e = Entry::new();
    e.set_uuid(42);
    e.set_title(Some(title));
    e.get_times_mut().set_last_modification(Some(t));
    e
}

#[test]
fn history_merge_keeps_union_newest_first() {
    let mut mine = History::new();
    mine.add_entry(stamped("a", 10));
    mine.add_entry(stamped("c", 30));
    let mut theirs = History::new();
    theirs.add_entry(stamped("b", 20));
    theirs.add_entry(stamped("c-other", 30));
    let log = mine.merge_with(&theirs).unwrap();
    assert_eq!(log.warnings.len(), 1);
    assert_eq!(
        log.warnings[0],
        "History entries have the same modification timestamp but were not the same."
    );
    let titles: Vec<String> = mine.get_entries().iter().map(|e| e.get_title().unwrap()).collect();
    assert_eq!(titles, vec!["c".to_string(), "b".to_string(), "a".to_string()]);
    assert!(mine.is_ordered());
}

#[test]
fn history_merge_rejects_duplicate_times_on_own_side() {
    let mut mine = History::new();
    mine.add_entry(stamped("a", 10));
    mine.add_entry(stamped("b", 10));
    let before = mine.get_entries().len();
    assert_eq!(mine.merge_with(&History::new()).err(), Some(MergeError::DuplicateHistoryTimestamp));
    assert_eq!(mine.get_entries().len(), before);
}

#[test]
fn history_merge_rejects_missing_time() {
    let mut mine = History::new();
    let mut e = stamped("a", 10);
    e.get_times_mut().set_last_modification(None);
    mine.add_entry(e);
    assert_eq!(mine.merge_with(&History::new()).err(), Some(MergeError::MissingHistoryTimestamp));
}

#[test]
fn is_ordered_accepts_equal_neighbours() {
    let mut h = History::new();
    h.add_entry(stamped("a", 10));
    h.add_entry(stamped("b", 10));
    assert!(h.is_ordered());
    h.add_entry(stamped("c", 5));
    assert!(!h.is_ordered());
}

#[test]
fn add_entry_strips_nested_history() {
    let mut inner = stamped("a", 10);
    inner.update_history();
    assert!(inner.get_history().is_some());
    let mut h = History::new();
    h.add_entry(inner);
    assert!(h.get_entries()[0].get_history().is_none());
}

#[test]
fn entry_merge_newer_side_wins_and_both_survive() {
    let mut base = Entry::new();
    base.set_title(Some("base"));
    base.update_history();
    let mut dest = base.duplicate();
    let mut src = base.duplicate();
    wait_for_next_second();
    dest.set_title(Some("A"));
    dest.update_history();
    wait_for_next_second();
    src.set_title(Some("B"));
    src.update_history();

    let (merged, log) = Entry::merge(&src, &dest).unwrap();
    assert_eq!(log.warnings.len(), 0);
    assert_eq!(merged.get_title(), Some("B".to_string()));
    let history = merged.get_history().as_ref().unwrap();
    assert_eq!(history.get_entries().len(), 3);
    assert_eq!(history.get_entries()[1].get_title(), Some("A".to_string()));
}

#[test]
fn entry_merge_warns_for_missing_histories() {
    let mut a = stamped("a", 10);
    a.purge_history();
    let b = stamped("b", 5);
    let (merged, log) = Entry::merge(&a, &b).unwrap();
    assert_eq!(log.warnings.len(), 2);
    let text = uuid::Uuid::from_u128(42).to_string();
    assert_eq!(log.warnings[0], format!("Entry {} had no history.", text));
    assert_eq!(merged.get_history().as_ref().unwrap().get_entries().len(), 1);
}

#[test]
fn reconcile_equal_entries_is_a_no_op() {
    let e = stamped("a", 10);
    let mut log = MergeLog::new();
    assert!(matches!(reconcile_entry(&e, &e.duplicate(), 0, &mut log), Ok(None)));
    assert_eq!(log.warnings.len(), 0);
}

#[test]
fn reconcile_equal_times_different_content_fails() {
    let a = stamped("a", 10);
    let b = stamped("b", 10);
    let mut log = MergeLog::new();
    assert_eq!(reconcile_entry(&a, &b, 0, &mut log).err(), Some(MergeError::EntriesDiverged { uuid: 42 }));
}

#[test]
fn merge_log_merge_with_concatenates() {
    let mut a = MergeLog::new();
    a.add_warning("w1".to_string());
    a.add_event(1, MergeEventType::EntryCreated);
    let mut b = MergeLog::new();
    b.add_warning("w2".to_string());
    b.add_event(2, MergeEventType::EntryUpdated);
    let c = a.merge_with(&b);
    assert_eq!(c.warnings, vec!["w1".to_string(), "w2".to_string()]);
    assert_eq!(c.events.len(), 2);
    assert_eq!(c.events[1].node_uuid, 2);
}

#[test]
fn protected_password_round_trip() {
    let mut e = Entry::new();
    e.set_password(Some("secret"));
    assert_eq!(e.get_password(), Some("secret".to_string()));
    assert!(matches!(field(&e, "Password"), Value::Protected(_)));
    e.set_password(None);
    assert_eq!(e.get_password(), None);
}

#[test]
fn setters_and_getters_of_fields() {
    let mut e = Entry::new();
    e.set_username(Some("jdoe"));
    e.set_url(Some("https://example.com"));
    e.set_notes(Some("n"));
    assert_eq!(e.get_username(), Some("jdoe".to_string()));
    assert_eq!(e.get_url(), Some("https://example.com".to_string()));
    assert_eq!(e.get_notes(), Some("n".to_string()));
    e.set_username(None);
    assert_eq!(e.get_username(), None);
    assert_eq!(e.get_raw_otp_value(), None);
}

#[test]
fn value_emptiness() {
    assert!(Value::Bytes(vec![]).is_empty());
    assert!(Value::Unprotected(String::new()).is_empty());
    assert!(Value::Protected(SecStr::new(vec![])).is_empty());
    assert!(!Value::Protected(SecStr::new(vec![1])).is_empty());
}

#[test]
fn history_merge_ignores_clashes_within_other() {
    let mut mine = History::new();
    let mut theirs = History::new();
    theirs.add_entry(stamped("x", 10));
    theirs.add_entry(stamped("y", 10));
    let log = mine.merge_with(&theirs).unwrap();
    assert_eq!(log.warnings.len(), 0);
    assert_eq!(mine.get_entries().len(), 1);
}

#[test]
fn reconcile_equal_times_same_content_merges_histories() {
    let mut a = stamped("a", 10);
    a.update_history();
    let mut b = a.duplicate();
    b.purge_history();
    let mut h = History::new();
    h.add_entry(stamped("a", 5));
    b.history = Some(h);
    let mut log = MergeLog::new();
    let (merged, _) = reconcile_entry(&a, &b, 0, &mut log).unwrap().unwrap();
    assert_eq!(merged.get_history().as_ref().unwrap().get_entries().len(), 2);
    assert_eq!(merged.get_title(), Some("a".to_string()));
}

#[test]
fn uuid_text_is_hyphenated_lower_case_hex() {
    let a = stamped("a", 10);
    let mut b = stamped("b", 5);
    b.purge_history();
    let (_, log) = Entry::merge(&a, &b).unwrap();
    assert_eq!(log.warnings[0], "Entry 00000000-0000-0000-0000-00000000002a had no history.");
}
