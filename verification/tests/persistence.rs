use rustodo::store::Store;
use rustodo::task::{Status, Task};

fn fixed_task(id: &str, content: &str, status: Status, created: &str, updated: &str) -> Task {
    Task {
        id: id.to_string(),
        content: content.to_string(),
        status,
        created_at: created.to_string(),
        updated_at: updated.to_string(),
    }
}

#[test]
fn save_produces_exact_document() {
    let store = Store {
        tasks: vec![fixed_task(
            "AB12CD",
            "Buy milk",
            Status::Hold,
            "2024-01-02T03:04:05.000000006Z",
            "2024-01-02T03:04:05.000000006Z",
        )],
    };
    let s = store.save_to_string();
    let expected = "[\n  {\n    \"id\": \"AB12CD\",\n    \"content\": \"Buy milk\",\n    \"status\": \"HOLD\",\n    \"created_at\": \"2024-01-02T03:04:05.000000006Z\",\n    \"updated_at\": \"2024-01-02T03:04:05.000000006Z\"\n  }\n]";
    assert_eq!(s, expected);
}

#[test]
fn save_empty_store() {
    let store = Store { tasks: vec![] };
    assert_eq!(store.save_to_string(), "[]");
    let back = Store::load_from_string("[]").unwrap();
    assert_eq!(back.tasks.len(), 0);
}

#[test]
fn round_trip_preserves_every_field() {
    let store = Store {
        tasks: vec![
            fixed_task(
                "AAAAAA",
                "quote \" backslash \\ newline \n tab \t bell \u{07} unicode \u{4efb}\u{52a1} ok",
                Status::Doing,
                "2023-12-31T23:59:59.999999999Z",
                "2024-01-01T00:00:00.000000000Z",
            ),
            fixed_task(
                "BBBBBB",
                "",
                Status::Done,
                "2024-06-15T12:00:00.500000000Z",
                "2024-06-15T12:30:00.500000000Z",
            ),
        ],
    };
    let s = store.save_to_string();
    let back = Store::load_from_string(&s).expect("the saved document must load");
    assert_eq!(back.tasks.len(), store.tasks.len());
    for (a, b) in store.tasks.iter().zip(back.tasks.iter()) {
        assert_eq!(a.id, b.id);
        assert_eq!(a.content, b.content);
        assert_eq!(a.status.ordinal(), b.status.ordinal());
        assert_eq!(a.created_at, b.created_at);
        assert_eq!(a.updated_at, b.updated_at);
    }
}

#[test]
fn round_trip_after_real_operations() {
    let mut store = Store::new();
    store.add("write tests".to_string());
    store.add("buy bread".to_string());
    store.add("relax".to_string());
    let s = store.save_to_string();
    let back = Store::load_from_string(&s).unwrap();
    assert_eq!(back.tasks.len(), 3);
    let mut contents: Vec<String> = back.tasks.iter().map(|t| t.content.clone()).collect();
    contents.sort();
    assert_eq!(contents, vec!["buy bread", "relax", "write tests"]);
}

#[test]
fn saved_document_is_valid_json() {
    let store = Store {
        tasks: vec![fixed_task(
            "XY98ZW",
            "escape \" and \\ and \u{01} fine",
            Status::Done,
            "2024-03-04T05:06:07.000000000Z",
            "2024-03-04T05:06:07.000000001Z",
        )],
    };
    let s = store.save_to_string();
    let v: serde_json::Value = serde_json::from_str(&s).expect("must be JSON");
    let arr = v.as_array().expect("must be an array");
    assert_eq!(arr.len(), 1);
    assert_eq!(arr[0]["id"], "XY98ZW");
    assert_eq!(arr[0]["content"], "escape \" and \\ and \u{01} fine");
    assert_eq!(arr[0]["status"], "DONE");
    assert_eq!(arr[0]["created_at"], "2024-03-04T05:06:07.000000000Z");
    assert_eq!(arr[0]["updated_at"], "2024-03-04T05:06:07.000000001Z");
}

#[test]
fn load_rejects_malformed_documents() {
    assert!(Store::load_from_string("").is_err());
    assert!(Store::load_from_string("not json").is_err());
    assert!(Store::load_from_string("{\"id\": \"A\"}").is_err());
    // invalid status token
    let bad_status = "[\n  {\n    \"id\": \"AB12CD\",\n    \"content\": \"x\",\n    \"status\": \"WAITING\",\n    \"created_at\": \"2024-01-02T03:04:05.000000006Z\",\n    \"updated_at\": \"2024-01-02T03:04:05.000000006Z\"\n  }\n]";
    assert!(Store::load_from_string(bad_status).is_err());
    // invalid timestamp (month 13)
    let bad_ts = "[\n  {\n    \"id\": \"AB12CD\",\n    \"content\": \"x\",\n    \"status\": \"HOLD\",\n    \"created_at\": \"2024-13-02T03:04:05.000000006Z\",\n    \"updated_at\": \"2024-13-02T03:04:05.000000006Z\"\n  }\n]";
    assert!(Store::load_from_string(bad_ts).is_err());
    // updated before created violates the record invariant
    let regressed = "[\n  {\n    \"id\": \"AB12CD\",\n    \"content\": \"x\",\n    \"status\": \"HOLD\",\n    \"created_at\": \"2024-01-02T03:04:05.000000006Z\",\n    \"updated_at\": \"2024-01-02T03:04:05.000000005Z\"\n  }\n]";
    assert!(Store::load_from_string(regressed).is_err());
    // calendar-impossible days
    let feb31 = "[\n  {\n    \"id\": \"AB12CD\",\n    \"content\": \"x\",\n    \"status\": \"HOLD\",\n    \"created_at\": \"2024-02-31T03:04:05.000000006Z\",\n    \"updated_at\": \"2024-02-31T03:04:05.000000006Z\"\n  }\n]";
    assert!(Store::load_from_string(feb31).is_err());
    let apr31 = "[\n  {\n    \"id\": \"AB12CD\",\n    \"content\": \"x\",\n    \"status\": \"HOLD\",\n    \"created_at\": \"2024-04-31T03:04:05.000000006Z\",\n    \"updated_at\": \"2024-04-31T03:04:05.000000006Z\"\n  }\n]";
    assert!(Store::load_from_string(apr31).is_err());
}

#[test]
fn load_keeps_the_later_record_on_a_duplicate_id() {
    let dup = "[\n  {\n    \"id\": \"AB12CD\",\n    \"content\": \"x\",\n    \"status\": \"HOLD\",\n    \"created_at\": \"2024-01-02T03:04:05.000000006Z\",\n    \"updated_at\": \"2024-01-02T03:04:05.000000006Z\"\n  },\n  {\n    \"id\": \"EF34GH\",\n    \"content\": \"kept\",\n    \"status\": \"DOING\",\n    \"created_at\": \"2024-01-02T03:04:05.000000006Z\",\n    \"updated_at\": \"2024-01-02T03:04:05.000000006Z\"\n  },\n  {\n    \"id\": \"AB12CD\",\n    \"content\": \"y\",\n    \"status\": \"DONE\",\n    \"created_at\": \"2024-01-02T03:04:05.000000006Z\",\n    \"updated_at\": \"2024-01-02T03:04:05.000000006Z\"\n  }\n]";
    let back = Store::load_from_string(dup).expect("a repeated id is not a parse failure");
    assert_eq!(back.tasks.len(), 2);
    let ab = back.tasks.iter().find(|t| t.id == "AB12CD").expect("kept under its id");
    assert_eq!(ab.content, "y");
    assert_eq!(ab.status.ordinal(), Status::Done.ordinal());
    assert!(back.tasks.iter().any(|t| t.id == "EF34GH" && t.content == "kept"));
}

#[test]
fn load_accepts_flexible_timestamp_forms() {
    // no fraction, short fractions, and zero offsets all load, canonicalized
    let doc = "[\n  {\n    \"id\": \"AB12CD\",\n    \"content\": \"a\",\n    \"status\": \"HOLD\",\n    \"created_at\": \"2024-01-02T03:04:05Z\",\n    \"updated_at\": \"2024-01-02T03:04:05.5Z\"\n  },\n  {\n    \"id\": \"EF34GH\",\n    \"content\": \"b\",\n    \"status\": \"DONE\",\n    \"created_at\": \"2024-01-02T03:04:05.123+00:00\",\n    \"updated_at\": \"2024-01-02T03:04:06.123456-00:00\"\n  }\n]";
    let back = Store::load_from_string(doc).expect("flexible timestamp forms must load");
    assert_eq!(back.tasks.len(), 2);
    assert_eq!(back.tasks[0].created_at, "2024-01-02T03:04:05.000000000Z");
    assert_eq!(back.tasks[0].updated_at, "2024-01-02T03:04:05.500000000Z");
    assert_eq!(back.tasks[1].created_at, "2024-01-02T03:04:05.123000000Z");
    assert_eq!(back.tasks[1].updated_at, "2024-01-02T03:04:06.123456000Z");
    // a non-zero offset would need calendar arithmetic and is rejected
    let shifted = "[\n  {\n    \"id\": \"AB12CD\",\n    \"content\": \"a\",\n    \"status\": \"HOLD\",\n    \"created_at\": \"2024-01-02T03:04:05+05:00\",\n    \"updated_at\": \"2024-01-02T03:04:05+05:00\"\n  }\n]";
    assert!(Store::load_from_string(shifted).is_err());
}

#[test]
fn escaped_content_round_trips_unchanged() {
    let mut contents: Vec<String> = Vec::new();
    contents.push("plain".to_string());
    contents.push("\"".to_string());
    contents.push("\\".to_string());
    contents.push("\u{0}\u{1}\u{1f}".to_string());
    contents.push("mix \"\\\n\r\t end".to_string());
    let tasks: Vec<Task> = contents
        .iter()
        .enumerate()
        .map(|(i, c)| {
            fixed_task(
                &format!("ID{:04}", i),
                c,
                Status::Hold,
                "2024-01-01T00:00:00.000000000Z",
                "2024-01-01T00:00:00.000000000Z",
            )
        })
        .collect();
    let store = Store { tasks };
    let back = Store::load_from_string(&store.save_to_string()).unwrap();
    let got: Vec<String> = back.tasks.iter().map(|t| t.content.clone()).collect();
    assert_eq!(got, contents);
}
