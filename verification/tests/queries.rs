use rustodo::sort::{parse_sort_field, SortKey};
use rustodo::store::Store;
use rustodo::task::{Status, Task};

fn fixed_task(id: &str, content: &str, status: Status, created: &str, updated: &str) -> Task {
    Task {
        id: id.to_string(),
        content: content.to_string(),
        status,
        created_at: created.to_string(),
        updated_at: updated.to_string(),
    }
}

const T0: &str = "2024-01-01T00:00:00.000000000Z";

#[test]
fn filter_by_status_returns_exactly_the_matching_subset() {
    let mut store = Store::new();
    let a = store.add("one".to_string());
    let b = store.add("two".to_string());
    let c = store.add("three".to_string());
    store.update_status(&b, Status::Doing);
    store.update_status(&c, Status::Done);
    let doing = store.filter_by_status(Some(Status::Doing));
    assert_eq!(doing.len(), 1);
    assert_eq!(doing[0].id, b);
    let hold = store.filter_by_status(Some(Status::Hold));
    assert_eq!(hold.len(), 1);
    assert_eq!(hold[0].id, a);
    let all = store.filter_by_status(None);
    assert_eq!(all.len(), 3);
    let empty_store = Store::new();
    assert_eq!(empty_store.filter_by_status(None).len(), 0);
}

#[test]
fn plain_search_is_case_insensitive() {
    let mut store = Store::new();
    store.add("Buy milk".to_string());
    store.add("buy bread".to_string());
    store.add("Clean house".to_string());
    let hits = store.search_plain("buy");
    assert_eq!(hits.len(), 2);
    let contents: Vec<&str> = hits.iter().map(|t| t.content.as_str()).collect();
    assert!(contents.contains(&"Buy milk"));
    assert!(contents.contains(&"buy bread"));
    assert_eq!(store.search_plain("BUY").len(), 2);
    assert_eq!(store.search_plain("house").len(), 1);
    assert_eq!(store.search_plain("xyzzy").len(), 0);
    assert_eq!(store.search_plain("").len(), 3);
}

#[test]
fn regex_search_matches_anchored_patterns() {
    let mut store = Store::new();
    store.add("Buy milk".to_string());
    store.add("buy bread".to_string());
    store.add("Clean house".to_string());
    let hits = store.search_regex("^Buy").expect("valid pattern");
    assert_eq!(hits.len(), 1);
    assert_eq!(hits[0].content, "Buy milk");
    let hits = store.search_regex("b.*d").expect("valid pattern");
    assert_eq!(hits.len(), 1);
    assert_eq!(hits[0].content, "buy bread");
}

#[test]
fn regex_search_reports_invalid_patterns() {
    let mut store = Store::new();
    store.add("something".to_string());
    let r = store.search_regex("[unclosed");
    assert!(r.is_err());
    let msg = r.unwrap_err();
    assert!(!msg.is_empty());
    // an empty store has nothing to match, so the pattern is not examined
    let empty_store = Store::new();
    assert!(empty_store.search_regex("[unclosed").is_ok());
}

#[test]
fn sort_by_id_ascending_and_descending() {
    let store = Store {
        tasks: vec![
            fixed_task("B2", "b", Status::Hold, T0, T0),
            fixed_task("C3", "c", Status::Hold, T0, T0),
            fixed_task("A1", "a", Status::Hold, T0, T0),
        ],
    };
    let asc = store.sorted(SortKey::Id, false);
    let ids: Vec<&str> = asc.iter().map(|t| t.id.as_str()).collect();
    assert_eq!(ids, vec!["A1", "B2", "C3"]);
    let desc = store.sorted(SortKey::Id, true);
    let ids: Vec<&str> = desc.iter().map(|t| t.id.as_str()).collect();
    assert_eq!(ids, vec!["C3", "B2", "A1"]);
}

#[test]
fn sort_is_stable_on_equal_keys() {
    let store = Store {
        tasks: vec![
            fixed_task("X1", "same", Status::Hold, T0, T0),
            fixed_task("X2", "same", Status::Hold, T0, T0),
            fixed_task("X3", "same", Status::Hold, T0, T0),
        ],
    };
    let by_created = store.sorted(SortKey::Created, false);
    let ids: Vec<&str> = by_created.iter().map(|t| t.id.as_str()).collect();
    assert_eq!(ids, vec!["X1", "X2", "X3"]);
    let by_content = store.sorted(SortKey::Content, false);
    let ids: Vec<&str> = by_content.iter().map(|t| t.id.as_str()).collect();
    assert_eq!(ids, vec!["X1", "X2", "X3"]);
}

#[test]
fn sort_by_status_uses_the_ordinal() {
    let store = Store {
        tasks: vec![
            fixed_task("D1", "d", Status::Done, T0, T0),
            fixed_task("H1", "h", Status::Hold, T0, T0),
            fixed_task("G1", "g", Status::Doing, T0, T0),
        ],
    };
    let asc = store.sorted(SortKey::Status, false);
    let ords: Vec<u8> = asc.iter().map(|t| t.status.ordinal()).collect();
    assert_eq!(ords, vec![0, 1, 2]);
    let desc = store.sorted(SortKey::Status, true);
    let ords: Vec<u8> = desc.iter().map(|t| t.status.ordinal()).collect();
    assert_eq!(ords, vec![2, 1, 0]);
}

#[test]
fn sort_by_timestamps() {
    let early = "2024-01-01T00:00:00.000000000Z";
    let late = "2024-06-01T00:00:00.000000000Z";
    let store = Store {
        tasks: vec![
            fixed_task("N1", "new", Status::Hold, late, late),
            fixed_task("O1", "old", Status::Hold, early, late),
        ],
    };
    let asc = store.sorted(SortKey::Created, false);
    assert_eq!(asc[0].id, "O1");
    assert_eq!(asc[1].id, "N1");
    let desc = store.sorted(SortKey::Created, true);
    assert_eq!(desc[0].id, "N1");
}

#[test]
fn query_results_are_ordered_by_creation_time() {
    let early = "2024-01-01T00:00:00.000000000Z";
    let late = "2024-06-01T00:00:00.000000000Z";
    let store = Store {
        tasks: vec![
            fixed_task("N1", "beta", Status::Hold, late, late),
            fixed_task("O1", "alpha", Status::Hold, early, early),
        ],
    };
    let shown = store.filter_by_status(None);
    assert_eq!(shown[0].id, "O1");
    let found = store.search_plain("a");
    assert_eq!(found[0].id, "O1");
}

#[test]
fn parse_sort_field_is_case_insensitive() {
    assert_eq!(parse_sort_field("id"), Some(SortKey::Id));
    assert_eq!(parse_sort_field("ID"), Some(SortKey::Id));
    assert_eq!(parse_sort_field("Content"), Some(SortKey::Content));
    assert_eq!(parse_sort_field("STATUS"), Some(SortKey::Status));
    assert_eq!(parse_sort_field("created"), Some(SortKey::Created));
    assert_eq!(parse_sort_field("Updated"), Some(SortKey::Updated));
    assert_eq!(parse_sort_field("priority"), None);
    assert_eq!(parse_sort_field(""), None);
}
