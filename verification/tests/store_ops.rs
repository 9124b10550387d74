use rustodo::store::Store;
use rustodo::task::{parse_status, Status};

#[test]
fn add_assigns_fresh_ids_in_a_large_batch() {
    let mut store = Store::new();
    let mut ids: Vec<String> = Vec::new();
    for i in 0..200 {
        ids.push(store.add(format!("task {}", i)));
    }
    assert_eq!(store.tasks.len(), 200);
    let mut sorted = ids.clone();
    sorted.sort();
    sorted.dedup();
    assert_eq!(sorted.len(), 200);
    for id in &ids {
        assert_eq!(id.len(), 6);
        assert!(id.chars().all(|c| c.is_ascii_uppercase() || c.is_ascii_digit()));
    }
}

#[test]
fn add_sets_hold_and_equal_timestamps() {
    let mut store = Store::new();
    let id = store.add("first".to_string());
    assert_eq!(store.tasks.len(), 1);
    let t = &store.tasks[0];
    assert_eq!(t.id, id);
    assert_eq!(t.content, "first");
    assert_eq!(t.status.ordinal(), Status::Hold.ordinal());
    assert_eq!(t.created_at, t.updated_at);
    assert_eq!(t.created_at.len(), 30);
    assert!(t.created_at.ends_with('Z'));
}

#[test]
fn update_status_sets_status_and_refreshes_updated_at() {
    let mut store = Store::new();
    let id = store.add("work".to_string());
    let before = store.tasks[0].updated_at.clone();
    // burn a little time so the clock reading moves
    let mut sink = 0u64;
    for i in 0..200_000u64 {
        sink = sink.wrapping_add(i);
    }
    assert!(sink != 1);
    assert!(store.update_status(&id, Status::Doing));
    let t = &store.tasks[0];
    assert_eq!(t.status.ordinal(), Status::Doing.ordinal());
    assert!(t.updated_at >= t.created_at);
    assert!(t.updated_at > before);
}

#[test]
fn update_status_not_found_changes_nothing() {
    let mut store = Store::new();
    store.add("keep".to_string());
    let snapshot = store.save_to_string();
    assert!(!store.update_status("NOSUCH", Status::Done));
    assert_eq!(store.save_to_string(), snapshot);
}

#[test]
fn delete_removes_and_reports_content() {
    let mut store = Store::new();
    let id = store.add("gone soon".to_string());
    store.add("stays".to_string());
    let removed = store.delete(&id);
    assert_eq!(removed.as_deref(), Some("gone soon"));
    assert_eq!(store.tasks.len(), 1);
    assert_eq!(store.tasks[0].content, "stays");
    assert!(store.delete(&id).is_none());
    assert_eq!(store.tasks.len(), 1);
}

#[test]
fn clear_without_filter_twice_is_idempotent() {
    let mut store = Store::new();
    store.add("a".to_string());
    store.add("b".to_string());
    store.clear_by_filter(None);
    assert_eq!(store.tasks.len(), 0);
    store.clear_by_filter(None);
    assert_eq!(store.tasks.len(), 0);
}

#[test]
fn clear_with_status_filter_removes_only_matches() {
    let mut store = Store::new();
    let a = store.add("hold me".to_string());
    let b = store.add("doing it".to_string());
    let c = store.add("done it".to_string());
    store.update_status(&b, Status::Doing);
    store.update_status(&c, Status::Done);
    store.clear_by_filter(Some(Status::Doing));
    assert_eq!(store.tasks.len(), 2);
    assert!(store.tasks.iter().all(|t| t.id != b));
    assert!(store.tasks.iter().any(|t| t.id == a));
    assert!(store.tasks.iter().any(|t| t.id == c));
}

#[test]
fn parse_status_is_case_insensitive() {
    assert_eq!(parse_status("hold"), Some(Status::Hold));
    assert_eq!(parse_status("HOLD"), Some(Status::Hold));
    assert_eq!(parse_status("Doing"), Some(Status::Doing));
    assert_eq!(parse_status("dOnE"), Some(Status::Done));
    assert_eq!(parse_status("waiting"), None);
    assert_eq!(parse_status(""), None);
    assert_eq!(parse_status("HOLD "), None);
}

#[test]
fn status_names_and_ordinals() {
    assert_eq!(Status::Hold.name(), "HOLD");
    assert_eq!(Status::Doing.name(), "DOING");
    assert_eq!(Status::Done.name(), "DONE");
    assert_eq!(Status::Hold.ordinal(), 0);
    assert_eq!(Status::Doing.ordinal(), 1);
    assert_eq!(Status::Done.ordinal(), 2);
}

#[test]
fn scenario_add_update_show_delete() {
    let mut store = Store::new();
    let x = store.add("write tests".to_string());
    let mut sink = 0u64;
    for i in 0..200_000u64 {
        sink = sink.wrapping_add(i);
    }
    assert!(sink != 1);
    assert!(store.update_status(&x, Status::Doing));
    let shown = store.filter_by_status(None);
    let hit = shown.iter().find(|t| t.id == x).expect("task must be shown");
    assert_eq!(hit.status.ordinal(), Status::Doing.ordinal());
    assert!(hit.updated_at > hit.created_at);
    assert!(store.delete(&x).is_some());
    let shown = store.filter_by_status(None);
    assert!(shown.iter().all(|t| t.id != x));
    assert!(store.delete(&x).is_none());
}
