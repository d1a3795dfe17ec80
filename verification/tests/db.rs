use webhook_listener::db::{
    clear_endpoint, create_endpoint, create_endpoint_with_id, delete_endpoint, delete_webhook,
    get_endpoint, get_webhook, insert_webhook, list_endpoints, list_webhooks_for_endpoint,
    restore, Endpoint, NewWebhook, Store, StoreError, Webhook,
};

fn make_new<'a>(endpoint_id: u128, ts: i64, body: &'a [u8]) -> NewWebhook<'a> {
    NewWebhook {
        endpoint_id,
        received_at: ts,
        method: "POST",
        path: "/webhooks/x",
        query: "",
        source_ip: "127.0.0.1",
        headers_json: "{}",
        body,
    }
}

#[test]
fn create_and_get_endpoint_round_trip() {
    let mut store = Store::new();
    let created = create_endpoint(&mut store, "GitHub PRs", "all PR events").unwrap();
    let fetched = get_endpoint(&store, created.id).unwrap();
    assert_eq!(fetched.id, created.id);
    assert_eq!(fetched.label, "GitHub PRs");
    assert_eq!(fetched.description, "all PR events");
    assert_eq!(fetched.created_at, created.created_at);
}

#[test]
fn get_endpoint_returns_none_when_missing() {
    let store = Store::new();
    let result = get_endpoint(&store, uuid::Uuid::new_v4().as_u128());
    assert!(result.is_none());
}

#[test]
fn list_endpoints_orders_by_created_desc_with_zero_counts() {
    let mut store = Store::new();
    let a = create_endpoint_with_id(&mut store, 1, "A", "", 1_700_000_000).unwrap();
    // One second later, so that the creation times differ.
    let b = create_endpoint_with_id(&mut store, 2, "B", "", 1_700_000_001).unwrap();
    let list = list_endpoints(&store);
    assert_eq!(list.len(), 2);
    assert_eq!(list[0].id, b.id);
    assert_eq!(list[1].id, a.id);
    assert_eq!(list[0].webhook_count, 0);
    assert_eq!(list[0].last_received_at, None);
}

#[test]
fn delete_endpoint_removes_row_and_reports_affected() {
    let mut store = Store::new();
    let e = create_endpoint(&mut store, "X", "").unwrap();
    assert!(delete_endpoint(&mut store, e.id));
    assert!(!delete_endpoint(&mut store, e.id));
    assert!(get_endpoint(&store, e.id).is_none());
}

#[test]
fn insert_below_cap_keeps_all_webhooks() {
    let mut store = Store::new();
    let e = create_endpoint(&mut store, "E", "").unwrap();
    for i in 0..10 {
        insert_webhook(&mut store, &make_new(e.id, i, b"x"), 250).unwrap();
    }
    let list = list_webhooks_for_endpoint(&store, e.id, 1000);
    assert_eq!(list.len(), 10);
}

#[test]
fn insert_at_cap_evicts_oldest() {
    let mut store = Store::new();
    let e = create_endpoint(&mut store, "E", "").unwrap();
    let cap = 5;
    for i in 0..(cap + 3) {
        insert_webhook(&mut store, &make_new(e.id, i, b"x"), cap).unwrap();
    }
    let list = list_webhooks_for_endpoint(&store, e.id, 1000);
    assert_eq!(list.len(), cap as usize);
    // Most recent first; oldest 3 evicted, surviving received_at = [7,6,5,4,3].
    let received: Vec<i64> = list.iter().map(|w| w.received_at).collect();
    assert_eq!(received, vec![7, 6, 5, 4, 3]);
}

#[test]
fn eviction_is_scoped_per_endpoint() {
    let mut store = Store::new();
    let a = create_endpoint(&mut store, "A", "").unwrap();
    let b = create_endpoint(&mut store, "B", "").unwrap();
    let cap = 2;
    for i in 0..5 {
        insert_webhook(&mut store, &make_new(a.id, i, b"x"), cap).unwrap();
    }
    insert_webhook(&mut store, &make_new(b.id, 100, b"y"), cap).unwrap();
    let list_a = list_webhooks_for_endpoint(&store, a.id, 1000);
    let list_b = list_webhooks_for_endpoint(&store, b.id, 1000);
    assert_eq!(list_a.len(), 2);
    assert_eq!(list_b.len(), 1);
}

#[test]
fn same_millisecond_ties_break_on_id_desc() {
    let mut store = Store::new();
    let e = create_endpoint(&mut store, "E", "").unwrap();
    let cap = 2;
    let id1 = insert_webhook(&mut store, &make_new(e.id, 1000, b"a"), cap).unwrap();
    let id2 = insert_webhook(&mut store, &make_new(e.id, 1000, b"b"), cap).unwrap();
    let id3 = insert_webhook(&mut store, &make_new(e.id, 1000, b"c"), cap).unwrap();
    let list = list_webhooks_for_endpoint(&store, e.id, 1000);
    let ids: Vec<i64> = list.iter().map(|w| w.id).collect();
    assert_eq!(ids, vec![id3, id2]);
    assert!(id1 < id2 && id2 < id3);
}

#[test]
fn delete_endpoint_cascades_to_webhooks() {
    let mut store = Store::new();
    let e = create_endpoint(&mut store, "E", "").unwrap();
    insert_webhook(&mut store, &make_new(e.id, 1, b"x"), 250).unwrap();
    assert!(delete_endpoint(&mut store, e.id));
    let list = list_webhooks_for_endpoint(&store, e.id, 1000);
    assert!(list.is_empty());
}

#[test]
fn clear_endpoint_keeps_endpoint_drops_webhooks() {
    let mut store = Store::new();
    let e = create_endpoint(&mut store, "E", "").unwrap();
    insert_webhook(&mut store, &make_new(e.id, 1, b"x"), 250).unwrap();
    let n = clear_endpoint(&mut store, e.id);
    assert_eq!(n, 1);
    assert!(get_endpoint(&store, e.id).is_some());
    let list = list_webhooks_for_endpoint(&store, e.id, 1000);
    assert!(list.is_empty());
}

#[test]
fn delete_webhook_returns_endpoint_id() {
    let mut store = Store::new();
    let e = create_endpoint(&mut store, "E", "").unwrap();
    let id = insert_webhook(&mut store, &make_new(e.id, 1, b"x"), 250).unwrap();
    let returned = delete_webhook(&mut store, id);
    assert_eq!(returned, Some(e.id));
    let again = delete_webhook(&mut store, id);
    assert_eq!(again, None);
}

#[test]
fn list_webhooks_summary_orders_recent_first() {
    let mut store = Store::new();
    let e = create_endpoint(&mut store, "E", "").unwrap();
    insert_webhook(&mut store, &make_new(e.id, 1, b"x"), 250).unwrap();
    insert_webhook(&mut store, &make_new(e.id, 2, b"y"), 250).unwrap();
    let list = list_webhooks_for_endpoint(&store, e.id, 1000);
    assert_eq!(list.len(), 2);
    assert_eq!(list[0].received_at, 2);
    assert_eq!(list[1].received_at, 1);
}

#[test]
fn created_endpoint_ids_are_version_4_uuids() {
    let mut store = Store::new();
    let e = create_endpoint(&mut store, "E", "d").unwrap();
    let u = uuid::Uuid::from_u128(e.id);
    assert_eq!(u.get_version_num(), 4);
    assert_eq!((e.id >> 62) & 0x3, 2);
}

#[test]
fn duplicate_endpoint_id_is_refused() {
    let mut store = Store::new();
    create_endpoint_with_id(&mut store, 42, "A", "", 10).unwrap();
    let err = create_endpoint_with_id(&mut store, 42, "B", "", 11).unwrap_err();
    assert_eq!(err, StoreError::DuplicateEndpoint);
    let list = list_endpoints(&store);
    assert_eq!(list.len(), 1);
    assert_eq!(list[0].label, "A");
}

#[test]
fn webhook_for_unknown_endpoint_is_refused() {
    let mut store = Store::new();
    let err = insert_webhook(&mut store, &make_new(7, 1, b"x"), 250).unwrap_err();
    assert_eq!(err, StoreError::UnknownEndpoint);
    let e = create_endpoint_with_id(&mut store, 7, "A", "", 10).unwrap();
    // The refused insert used no id.
    assert_eq!(insert_webhook(&mut store, &make_new(e.id, 1, b"x"), 250).unwrap(), 1);
}

#[test]
fn read_after_write_gives_the_stored_webhook() {
    let mut store = Store::new();
    let e = create_endpoint(&mut store, "E", "").unwrap();
    let new = NewWebhook {
        endpoint_id: e.id,
        received_at: 1234,
        method: "PUT",
        path: "/webhooks/abc",
        query: "a=1&b=2",
        source_ip: "10.0.0.1",
        headers_json: "{\"x\":[\"1\"]}",
        body: &[0u8, 159, 146, 150],
    };
    let id = insert_webhook(&mut store, &new, 250).unwrap();
    let w = get_webhook(&store, id).unwrap();
    assert_eq!(w.id, id);
    assert_eq!(w.endpoint_id, e.id);
    assert_eq!(w.received_at, 1234);
    assert_eq!(w.method, "PUT");
    assert_eq!(w.path, "/webhooks/abc");
    assert_eq!(w.query, "a=1&b=2");
    assert_eq!(w.source_ip, "10.0.0.1");
    assert_eq!(w.headers_json, "{\"x\":[\"1\"]}");
    assert_eq!(w.body, vec![0u8, 159, 146, 150]);
    assert_eq!(w.body_size, 4);
    assert!(get_webhook(&store, id + 1).is_none());
}

#[test]
fn ids_keep_growing_after_deletes() {
    let mut store = Store::new();
    let e = create_endpoint(&mut store, "E", "").unwrap();
    let id1 = insert_webhook(&mut store, &make_new(e.id, 1, b"x"), 250).unwrap();
    let id2 = insert_webhook(&mut store, &make_new(e.id, 2, b"x"), 250).unwrap();
    assert_eq!(clear_endpoint(&mut store, e.id), 2);
    let id3 = insert_webhook(&mut store, &make_new(e.id, 3, b"x"), 250).unwrap();
    assert_eq!((id1, id2, id3), (1, 2, 3));
}

#[test]
fn eviction_goes_by_received_at_not_insertion_order() {
    let mut store = Store::new();
    let e = create_endpoint(&mut store, "E", "").unwrap();
    insert_webhook(&mut store, &make_new(e.id, 50, b"x"), 2).unwrap();
    insert_webhook(&mut store, &make_new(e.id, 10, b"x"), 2).unwrap();
    // Older than both stored ones: it is the one evicted.
    let late = insert_webhook(&mut store, &make_new(e.id, 5, b"x"), 2).unwrap();
    assert!(get_webhook(&store, late).is_none());
    let received: Vec<i64> = list_webhooks_for_endpoint(&store, e.id, 1000).iter().map(|w| w.received_at).collect();
    assert_eq!(received, vec![50, 10]);
}

#[test]
fn retention_zero_evicts_everything_and_negative_keeps_everything() {
    let mut store = Store::new();
    let e = create_endpoint(&mut store, "E", "").unwrap();
    for i in 0..4 {
        insert_webhook(&mut store, &make_new(e.id, i, b"x"), -1).unwrap();
    }
    assert_eq!(list_webhooks_for_endpoint(&store, e.id, -1).len(), 4);
    insert_webhook(&mut store, &make_new(e.id, 9, b"x"), 0).unwrap();
    assert!(list_webhooks_for_endpoint(&store, e.id, -1).is_empty());
}

#[test]
fn list_limit_takes_the_newest() {
    let mut store = Store::new();
    let e = create_endpoint(&mut store, "E", "").unwrap();
    for i in [3, 9, 1, 7, 5] {
        insert_webhook(&mut store, &make_new(e.id, i, b"x"), 250).unwrap();
    }
    let received: Vec<i64> = list_webhooks_for_endpoint(&store, e.id, 3).iter().map(|w| w.received_at).collect();
    assert_eq!(received, vec![9, 7, 5]);
    assert!(list_webhooks_for_endpoint(&store, e.id, 0).is_empty());
    assert_eq!(list_webhooks_for_endpoint(&store, e.id, -5).len(), 5);
}

#[test]
fn list_endpoints_counts_and_latest() {
    let mut store = Store::new();
    let a = create_endpoint_with_id(&mut store, 1, "A", "first", 100).unwrap();
    let b = create_endpoint_with_id(&mut store, 2, "B", "second", 300).unwrap();
    let c = create_endpoint_with_id(&mut store, 3, "C", "third", 200).unwrap();
    insert_webhook(&mut store, &make_new(a.id, 40, b"x"), 250).unwrap();
    insert_webhook(&mut store, &make_new(a.id, 70, b"xy"), 250).unwrap();
    insert_webhook(&mut store, &make_new(a.id, 20, b"xyz"), 250).unwrap();
    insert_webhook(&mut store, &make_new(c.id, 5, b""), 250).unwrap();
    let list = list_endpoints(&store);
    let ids: Vec<u128> = list.iter().map(|s| s.id).collect();
    assert_eq!(ids, vec![b.id, c.id, a.id]);
    assert_eq!(list[0].webhook_count, 0);
    assert_eq!(list[0].last_received_at, None);
    assert_eq!(list[1].webhook_count, 1);
    assert_eq!(list[1].last_received_at, Some(5));
    assert_eq!(list[2].webhook_count, 3);
    assert_eq!(list[2].last_received_at, Some(70));
    assert_eq!(list[2].label, "A");
    assert_eq!(list[2].description, "first");
}

#[test]
fn delete_webhook_leaves_the_others() {
    let mut store = Store::new();
    let e = create_endpoint(&mut store, "E", "").unwrap();
    let id1 = insert_webhook(&mut store, &make_new(e.id, 1, b"x"), 250).unwrap();
    let id2 = insert_webhook(&mut store, &make_new(e.id, 2, b"y"), 250).unwrap();
    assert_eq!(delete_webhook(&mut store, id1), Some(e.id));
    let list = list_webhooks_for_endpoint(&store, e.id, 1000);
    assert_eq!(list.len(), 1);
    assert_eq!(list[0].id, id2);
    assert_eq!(delete_webhook(&mut store, 999), None);
}

fn saved_webhook(id: i64, endpoint_id: u128, received_at: i64) -> Webhook {
    Webhook {
        id,
        endpoint_id,
        received_at,
        method: "POST".to_string(),
        path: "/webhooks/x".to_string(),
        query: String::new(),
        source_ip: "127.0.0.1".to_string(),
        headers_json: "{}".to_string(),
        body: b"x".to_vec(),
        body_size: 1,
    }
}

fn saved_endpoint(id: u128, created_at: i64) -> Endpoint {
    Endpoint { id, label: format!("E{id}"), description: String::new(), created_at }
}

#[test]
fn restore_rebuilds_saved_rows_and_keeps_counting() {
    let endpoints = vec![saved_endpoint(1, 10), saved_endpoint(2, 20)];
    let webhooks = vec![saved_webhook(3, 1, 100), saved_webhook(7, 2, 200)];
    let mut store = restore(endpoints, webhooks, 9).unwrap();
    assert_eq!(store.last_webhook_id(), 9);
    assert_eq!(get_webhook(&store, 7).unwrap().endpoint_id, 2);
    assert_eq!(get_endpoint(&store, 1).unwrap().created_at, 10);
    let id = insert_webhook(&mut store, &make_new(1, 300, b"y"), 250).unwrap();
    assert_eq!(id, 10);
    assert_eq!(store.last_webhook_id(), 10);
}

#[test]
fn restore_refuses_inconsistent_rows() {
    // A repeated endpoint id.
    assert!(restore(vec![saved_endpoint(1, 10), saved_endpoint(1, 11)], vec![], 0).is_none());
    // Webhook ids out of order.
    let eps = || vec![saved_endpoint(1, 10)];
    assert!(restore(eps(), vec![saved_webhook(5, 1, 1), saved_webhook(4, 1, 2)], 5).is_none());
    // A webhook id above the counter.
    assert!(restore(eps(), vec![saved_webhook(6, 1, 1)], 5).is_none());
    // A webhook of an unknown endpoint.
    assert!(restore(eps(), vec![saved_webhook(1, 2, 1)], 5).is_none());
    // A negative counter.
    assert!(restore(eps(), vec![], -1).is_none());
    // An empty store is fine.
    assert_eq!(restore(vec![], vec![], 0).unwrap().last_webhook_id(), 0);
}

#[test]
fn deleted_ids_are_not_reused() {
    let mut store = Store::new();
    let e = create_endpoint(&mut store, "E", "").unwrap();
    let id1 = insert_webhook(&mut store, &make_new(e.id, 1, b"x"), 250).unwrap();
    let id2 = insert_webhook(&mut store, &make_new(e.id, 2, b"y"), 250).unwrap();
    assert_eq!(delete_webhook(&mut store, id2), Some(e.id));
    let id3 = insert_webhook(&mut store, &make_new(e.id, 3, b"z"), 250).unwrap();
    assert!(id1 < id2 && id2 < id3);
    assert_eq!(id3, 3);
}

#[test]
fn shorter_listing_is_a_prefix_of_a_longer_one() {
    let mut store = Store::new();
    let e = create_endpoint(&mut store, "E", "").unwrap();
    for ts in [5, 1, 9, 5, 3, 9] {
        insert_webhook(&mut store, &make_new(e.id, ts, b"x"), 250).unwrap();
    }
    let ids = |limit: i64| -> Vec<i64> {
        list_webhooks_for_endpoint(&store, e.id, limit).iter().map(|w| w.id).collect()
    };
    let all = ids(-1);
    assert_eq!(all, vec![6, 3, 4, 1, 5, 2]);
    for k in 0..=7 {
        let part = ids(k);
        assert_eq!(part[..], all[..part.len()]);
        assert_eq!(part.len(), (k as usize).min(all.len()));
    }
}

#[test]
fn retention_keeps_the_first_rows_of_the_listing() {
    let mut before = Store::new();
    let mut after = Store::new();
    let e1 = create_endpoint_with_id(&mut before, 1, "E", "", 0).unwrap();
    create_endpoint_with_id(&mut after, 1, "E", "", 0).unwrap();
    for ts in [4, 8, 2, 8, 6] {
        insert_webhook(&mut before, &make_new(e1.id, ts, b"x"), 250).unwrap();
        insert_webhook(&mut after, &make_new(e1.id, ts, b"x"), 3).unwrap();
    }
    let full: Vec<i64> = list_webhooks_for_endpoint(&before, 1, -1).iter().map(|w| w.id).collect();
    let kept: Vec<i64> = list_webhooks_for_endpoint(&after, 1, -1).iter().map(|w| w.id).collect();
    assert_eq!(full, vec![4, 2, 5, 1, 3]);
    assert_eq!(kept, full[..3].to_vec());
}

#[test]
fn creating_on_an_empty_store_succeeds() {
    let mut store = Store::new();
    let e = create_endpoint(&mut store, "A", "d").unwrap();
    assert_eq!(uuid::Uuid::from_u128(e.id).get_version_num(), 4);
    assert_eq!(uuid::Uuid::from_u128(e.id).get_variant(), uuid::Variant::RFC4122);
}

#[test]
fn revealing_the_invariant_changes_nothing() {
    let mut store = Store::new();
    let e = create_endpoint(&mut store, "E", "").unwrap();
    store.reveal_well_formed();
    assert_eq!(get_endpoint(&store, e.id).unwrap().label, "E");
}
