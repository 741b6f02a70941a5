use xinlan_clip::db::{
    auto_paste, clear_history, counts, delete_entry, get_entry, get_setting, list_entries,
    mark_used, max_items, now_unix, row_changes, set_setting, toggle_pin, trim, unix_time_from, upsert_entry,
    Entry, Row, Store,
    IDS_EXHAUSTED, USE_COUNT_OVERFLOW,
};

fn insert(store: &mut Store, text: &str, at: i64) -> Entry {
    upsert_entry(store, text, &format!("h{text}"), at)
        .expect("insert")
        .expect("new entry")
}

#[test]
fn repeat_observation_is_not_a_reuse() {
    let mut store = Store::new();
    insert(&mut store, "hello", 100);

    // This is what the one-second capture poll looks like.
    for tick in 101..110 {
        assert!(
            upsert_entry(&mut store, "hello", "hhello", tick).unwrap().is_none(),
            "an unchanged clipboard should not touch the row"
        );
    }

    let listed = list_entries(&store, None, 10);
    assert_eq!(listed.len(), 1);
    assert_eq!(listed[0].use_count, 1, "polling must not inflate use_count");
    assert_eq!(listed[0].last_used_at, 100, "and must not restamp the row");
}

#[test]
fn recopying_after_something_else_counts_as_reuse() {
    let mut store = Store::new();
    let first = insert(&mut store, "hello", 100);
    insert(&mut store, "other", 200);

    let again = upsert_entry(&mut store, "hello", "hhello", 300)
        .expect("upsert")
        .expect("reuse should be recorded");

    assert_eq!(again.id, first.id, "same row should be reused");
    assert_eq!(again.use_count, 2);
    assert_eq!(again.created_at, 100, "creation time is kept");
    assert_eq!(again.last_used_at, 300);
    assert_eq!(list_entries(&store, None, 10).len(), 2);

    // It is now the newest row, so it sorts first.
    assert_eq!(list_entries(&store, None, 10)[0].text, "hello");
}

#[test]
fn pinned_entries_sort_first_then_by_recency() {
    let mut store = Store::new();
    insert(&mut store, "oldest", 100);
    let middle = insert(&mut store, "middle", 200);
    insert(&mut store, "newest", 300);

    toggle_pin(&mut store, middle.id);

    let listed = list_entries(&store, None, 10);
    let texts: Vec<&str> = listed.iter().map(|e| e.text.as_str()).collect();
    assert_eq!(texts, vec!["middle", "newest", "oldest"]);
}

#[test]
fn search_matches_substrings_case_insensitively() {
    let mut store = Store::new();
    insert(&mut store, "Hello World", 100);
    insert(&mut store, "goodbye", 200);

    let hits = list_entries(&store, Some("hello"), 10);
    assert_eq!(hits.len(), 1);
    assert_eq!(hits[0].text, "Hello World");
}

#[test]
fn search_treats_wildcards_literally() {
    let mut store = Store::new();
    insert(&mut store, "100% done", 100);
    insert(&mut store, "no percent here", 200);

    // Without escaping, `%` would match everything.
    let hits = list_entries(&store, Some("100%"), 10);
    assert_eq!(hits.len(), 1);
    assert_eq!(hits[0].text, "100% done");
}

#[test]
fn trim_drops_oldest_unpinned_only() {
    let mut store = Store::new();
    let keep = insert(&mut store, "pinned", 100);
    toggle_pin(&mut store, keep.id);
    for index in 0..5 {
        insert(&mut store, &format!("item{index}"), 200 + index);
    }

    let removed = trim(&mut store, 2);
    assert_eq!(removed, 3, "five unpinned entries trimmed to two");

    let remaining = list_entries(&store, None, 10);
    let texts: Vec<&str> = remaining.iter().map(|e| e.text.as_str()).collect();
    assert_eq!(texts, vec!["pinned", "item4", "item3"]);
}

#[test]
fn clear_history_can_spare_pinned_entries() {
    let mut store = Store::new();
    let keep = insert(&mut store, "pinned", 100);
    toggle_pin(&mut store, keep.id);
    insert(&mut store, "transient", 200);

    assert_eq!(clear_history(&mut store, true), 1);
    assert_eq!(list_entries(&store, None, 10).len(), 1);

    assert_eq!(clear_history(&mut store, false), 1);
    assert_eq!(list_entries(&store, None, 10).len(), 0);
}

#[test]
fn toggle_pin_reports_new_state_and_missing_ids() {
    let mut store = Store::new();
    let entry = insert(&mut store, "entry", 100);

    assert_eq!(toggle_pin(&mut store, entry.id), Some(true));
    assert_eq!(toggle_pin(&mut store, entry.id), Some(false));
    assert_eq!(toggle_pin(&mut store, 9999), None);
}

#[test]
fn counts_reports_total_and_pinned() {
    let mut store = Store::new();
    let pinned = insert(&mut store, "pinned", 100);
    toggle_pin(&mut store, pinned.id);
    insert(&mut store, "plain", 200);

    assert_eq!(counts(&store), (2, 1));
}

#[test]
fn settings_round_trip_with_defaults() {
    let mut store = Store::new();

    assert_eq!(get_setting(&store, "missing", "fallback"), "fallback");
    set_setting(&mut store, "max_items", "1000");
    assert_eq!(max_items(&store), 1000);
    set_setting(&mut store, "max_items", "1");
    assert_eq!(max_items(&store), 10, "clamped to the lower bound");

    assert!(auto_paste(&store), "auto paste defaults to on");
    set_setting(&mut store, "auto_paste", "false");
    assert!(!auto_paste(&store));
}

#[test]
fn delete_entry_removes_exactly_one_row() {
    let mut store = Store::new();
    let entry = insert(&mut store, "target", 100);
    insert(&mut store, "other", 200);

    assert_eq!(delete_entry(&mut store, entry.id), 1);
    assert_eq!(delete_entry(&mut store, entry.id), 0);
    assert_eq!(list_entries(&store, None, 10).len(), 1);
}

#[test]
fn new_entries_get_increasing_ids_and_text_type() {
    let mut store = Store::new();
    let a = insert(&mut store, "a", 5);
    let b = insert(&mut store, "b", 6);
    assert_eq!((a.id, b.id), (1, 2));
    assert_eq!(a.content_type, "text");
    assert_eq!((a.created_at, a.last_used_at, a.use_count, a.pinned), (5, 5, 1, false));
    // Ids are never reused after a delete.
    delete_entry(&mut store, b.id);
    let c = insert(&mut store, "c", 7);
    assert_eq!(c.id, 3);
    assert_eq!(store.last_id(), 3);
}

#[test]
fn get_and_mark_used() {
    let mut store = Store::new();
    let e = insert(&mut store, "x", 10);
    assert!(get_entry(&store, 42).is_none());
    assert_eq!(mark_used(&mut store, e.id, 50), Ok(()));
    let got = get_entry(&store, e.id).unwrap();
    assert_eq!((got.last_used_at, got.use_count, got.created_at), (50, 2, 10));
    // Unknown ids are ignored.
    assert_eq!(mark_used(&mut store, 42, 60), Ok(()));
}

#[test]
fn use_count_overflow_is_refused() {
    let row = Row {
        entry: Entry {
            id: 1,
            content_type: "text".to_string(),
            text: "x".to_string(),
            created_at: 1,
            last_used_at: 1,
            use_count: i64::MAX,
            pinned: false,
        },
        content_hash: "hx".to_string(),
    };
    let other = Row {
        entry: Entry {
            id: 2,
            content_type: "text".to_string(),
            text: "y".to_string(),
            created_at: 2,
            last_used_at: 2,
            use_count: 1,
            pinned: false,
        },
        content_hash: "hy".to_string(),
    };
    let mut store = Store::from_parts(vec![row, other], vec![], 2).expect("valid");
    assert_eq!(mark_used(&mut store, 1, 9), Err(USE_COUNT_OVERFLOW.to_string()));
    assert_eq!(
        upsert_entry(&mut store, "x", "hx", 9).unwrap_err(),
        USE_COUNT_OVERFLOW.to_string()
    );
    assert_eq!(get_entry(&store, 1).unwrap().use_count, i64::MAX);
}

#[test]
fn ids_run_out_at_the_largest_integer() {
    let mut store = Store::from_parts(vec![], vec![], i64::MAX).expect("valid");
    assert_eq!(
        upsert_entry(&mut store, "x", "hx", 1).unwrap_err(),
        IDS_EXHAUSTED.to_string()
    );
    assert_eq!(counts(&store), (0, 0));
}

#[test]
fn from_parts_checks_the_invariant() {
    let mk = |id: i64, hash: &str| Row {
        entry: Entry {
            id,
            content_type: "text".to_string(),
            text: hash.to_string(),
            created_at: 0,
            last_used_at: 0,
            use_count: 1,
            pinned: false,
        },
        content_hash: hash.to_string(),
    };
    assert!(Store::from_parts(vec![mk(1, "a"), mk(2, "b")], vec![], 2).is_some());
    assert!(Store::from_parts(vec![mk(2, "a"), mk(1, "b")], vec![], 2).is_none());
    assert!(Store::from_parts(vec![mk(1, "a"), mk(2, "a")], vec![], 2).is_none());
    assert!(Store::from_parts(vec![mk(1, "a"), mk(3, "b")], vec![], 2).is_none());
    assert!(Store::from_parts(vec![mk(0, "a")], vec![], 2).is_none());
    assert!(Store::from_parts(vec![], vec![], -1).is_none());
}

#[test]
fn list_limit_is_clamped_and_search_is_trimmed() {
    let mut store = Store::new();
    for i in 0..5 {
        insert(&mut store, &format!("t{i}"), i);
    }
    assert_eq!(list_entries(&store, None, 0).len(), 1);
    assert_eq!(list_entries(&store, None, -5)[0].text, "t4");
    assert_eq!(list_entries(&store, None, 3).len(), 3);
    assert_eq!(list_entries(&store, Some("   "), 10).len(), 5);
    assert_eq!(list_entries(&store, Some("  T3 "), 10)[0].text, "t3");
    assert_eq!(list_entries(&store, Some("_"), 10).len(), 0);
}

#[test]
fn equal_times_list_larger_id_first() {
    let mut store = Store::new();
    insert(&mut store, "a", 7);
    insert(&mut store, "b", 7);
    let listed = list_entries(&store, None, 10);
    assert_eq!(listed[0].text, "b");
    assert_eq!(listed[1].text, "a");
}

#[test]
fn empty_setting_falls_back_and_cap_parses_signs() {
    let mut store = Store::new();
    set_setting(&mut store, "k", "");
    assert_eq!(get_setting(&store, "k", "d"), "d");
    assert_eq!(max_items(&store), 500);
    set_setting(&mut store, "max_items", "+20");
    assert_eq!(max_items(&store), 20);
    set_setting(&mut store, "max_items", "99999999999999999999");
    assert_eq!(max_items(&store), 500);
    set_setting(&mut store, "max_items", "-7");
    assert_eq!(max_items(&store), 10);
    set_setting(&mut store, "max_items", "abc");
    assert_eq!(max_items(&store), 500);
    set_setting(&mut store, "auto_paste", "TRUE");
    assert!(!auto_paste(&store));
    assert_eq!(store.settings().len(), 3);
}

#[test]
fn trim_keeps_at_least_one_and_counts_removed() {
    let mut store = Store::new();
    insert(&mut store, "a", 1);
    insert(&mut store, "b", 2);
    assert_eq!(trim(&mut store, 0), 1);
    assert_eq!(list_entries(&store, None, 10)[0].text, "b");
    assert_eq!(trim(&mut store, 5), 0);
}

#[test]
fn unix_time_conversion() {
    assert_eq!(unix_time_from(None), 1);
    assert_eq!(unix_time_from(Some(0)), 1);
    assert_eq!(unix_time_from(Some(1)), 1);
    assert_ne!(now_unix(), 0);
    assert_eq!(unix_time_from(Some(1_700_000_000)), 1_700_000_000);
    assert_eq!(unix_time_from(Some(u64::MAX)), -1);
    assert!(now_unix() > 1_600_000_000);
}

#[test]
fn settings_are_listed_once_per_key() {
    let pairs = vec![
        ("max_items".to_string(), "100".to_string()),
        ("auto_paste".to_string(), "false".to_string()),
        ("max_items".to_string(), "200".to_string()),
    ];
    let store = Store::from_parts(vec![], pairs, 0).expect("valid");
    let mut listed = store.settings();
    listed.sort();
    assert_eq!(
        listed,
        vec![
            ("auto_paste".to_string(), "false".to_string()),
            ("max_items".to_string(), "200".to_string()),
        ]
    );
    assert_eq!(max_items(&store), 200);
}

#[test]
fn saving_writes_only_what_changed() {
    let mut before = Store::new();
    let a = insert(&mut before, "a", 10);
    let b = insert(&mut before, "b", 20);
    let c = insert(&mut before, "c", 30);
    let mut after = Store::from_parts(before.rows(), before.settings(), before.last_id()).unwrap();
    let (removed, written) = row_changes(&before, &after);
    assert!(removed.is_empty() && written.is_empty());

    delete_entry(&mut after, a.id);
    toggle_pin(&mut after, b.id);
    let d = insert(&mut after, "d", 40);
    let (removed, written) = row_changes(&before, &after);
    assert_eq!(removed, vec![a.id]);
    let ids: Vec<i64> = written.iter().map(|r| r.entry.id).collect();
    assert_eq!(ids, vec![b.id, d.id]);
    assert!(written[0].entry.pinned);
    assert!(!ids.contains(&c.id));
}
