use webhook_listener::db::{self, Store};
use webhook_listener::error::AppError;
use webhook_listener::routes::dashboard::{
    base_url, create_endpoint, delete_endpoint, endpoint_location, host_or_localhost, index, trim,
    CreateEndpointForm,
};
use webhook_listener::routes::ingest::{group_headers, ingest, millis_from_nanos};
use webhook_listener::routes::{credentials_match, forced_status, session_is_valid, str_equal};

fn header(name: &str, value: Option<&str>) -> (String, Option<String>) {
    (name.to_string(), value.map(|v| v.to_string()))
}

#[test]
fn ingest_post_to_existing_endpoint_stores_webhook() {
    let mut store = Store::new();
    let endpoint = db::create_endpoint(&mut store, "Test", "").unwrap();
    let path = format!("/webhooks/{}", uuid::Uuid::from_u128(endpoint.id));
    let headers = vec![
        header("content-type", Some("application/json")),
        header("x-test", Some("yes")),
    ];
    let body = br#"{"hello":"world"}"#;
    let status = ingest(&mut store, endpoint.id, "POST", &path, Some("foo=bar"), "127.0.0.1", &headers, body, 250).unwrap();
    assert_eq!(status, 200);

    let list = db::list_webhooks_for_endpoint(&store, endpoint.id, 1000);
    assert_eq!(list.len(), 1);
    let saved = db::get_webhook(&store, list[0].id).unwrap();
    assert_eq!(saved.method, "POST");
    assert_eq!(saved.path, format!("/webhooks/{}", uuid::Uuid::from_u128(endpoint.id)));
    assert_eq!(saved.query, "foo=bar");
    assert_eq!(saved.body, br#"{"hello":"world"}"#.to_vec());
    assert_eq!(saved.body_size, r#"{"hello":"world"}"#.len() as i64);
    assert!(saved.headers_json.contains("x-test"));
    assert_eq!(saved.source_ip, "127.0.0.1");
}

#[test]
fn ingest_to_unknown_endpoint_returns_404() {
    let mut store = Store::new();
    let err = ingest(&mut store, uuid::Uuid::new_v4().as_u128(), "POST", "/webhooks/x", None, "127.0.0.1", &Vec::new(), b"x", 250)
        .unwrap_err();
    let (status, _) = err.status_and_message();
    assert_eq!(status, 404);
}

#[test]
fn ingest_accepts_get_method_too() {
    let mut store = Store::new();
    let endpoint = db::create_endpoint(&mut store, "Test", "").unwrap();
    let path = format!("/webhooks/{}", uuid::Uuid::from_u128(endpoint.id));
    let status = ingest(&mut store, endpoint.id, "GET", &path, None, "127.0.0.1", &Vec::new(), b"", 250).unwrap();
    assert_eq!(status, 200);
    let list = db::list_webhooks_for_endpoint(&store, endpoint.id, 1000);
    assert_eq!(list.len(), 1);
    assert_eq!(list[0].method, "GET");
}

#[test]
fn create_endpoint_redirects_to_detail_and_persists() {
    let mut store = Store::new();
    let form = CreateEndpointForm { label: "GitHub".to_string(), description: "PRs".to_string() };
    let location = create_endpoint(&mut store, &form).unwrap();
    assert!(location.starts_with("/endpoints/"), "{location}");
    let list = db::list_endpoints(&store);
    assert_eq!(list.len(), 1);
    assert_eq!(list[0].label, "GitHub");
}

#[test]
fn create_endpoint_location_names_the_new_endpoint() {
    let mut store = Store::new();
    let form = CreateEndpointForm { label: "  Stripe \n".to_string(), description: "\tpayments ".to_string() };
    let location = create_endpoint(&mut store, &form).unwrap();
    let list = db::list_endpoints(&store);
    assert_eq!(list[0].label, "Stripe");
    assert_eq!(list[0].description, "payments");
    assert_eq!(location, format!("/endpoints/{}", uuid::Uuid::from_u128(list[0].id)));
    let parsed = uuid::Uuid::parse_str(location.trim_start_matches("/endpoints/")).unwrap();
    assert_eq!(parsed.as_u128(), list[0].id);
}

#[test]
fn blank_label_is_a_bad_request() {
    let mut store = Store::new();
    let form = CreateEndpointForm { label: " \u{3000}\t".to_string(), description: "x".to_string() };
    let err = create_endpoint(&mut store, &form).unwrap_err();
    match &err {
        AppError::BadRequest(m) => assert_eq!(m, "label is required"),
        other => panic!("unexpected: {other:?}"),
    }
    assert_eq!(err.status_and_message(), (400, "label is required".to_string()));
    assert!(db::list_endpoints(&store).is_empty());
}

#[test]
fn delete_endpoint_redirects_home() {
    let mut store = Store::new();
    let e = db::create_endpoint(&mut store, "E", "").unwrap();
    assert_eq!(delete_endpoint(&mut store, e.id), (303, "/".to_string()));
    assert!(db::get_endpoint(&store, e.id).is_none());
    assert_eq!(delete_endpoint(&mut store, e.id), (303, "/".to_string()));
}

#[test]
fn index_lists_endpoints_with_base_url() {
    let mut store = Store::new();
    db::create_endpoint_with_id(&mut store, 5, "A", "", 1).unwrap();
    let page = index(&store, Some("example.com:8080"));
    assert_eq!(page.base_url, "http://example.com:8080");
    assert_eq!(page.endpoints.len(), 1);
    assert_eq!(index(&store, None).base_url, "http://localhost");
    assert_eq!(base_url(Some("h")), "http://h");
    assert_eq!(host_or_localhost(None), "localhost");
}

#[test]
fn trim_matches_std() {
    for s in ["", "   ", " a ", "a", "\u{a0}x\u{2003}", "\n\tlabel value\r\n", "\u{85}\u{1680}", "mid dle", "\u{200b}zw\u{200b}"] {
        assert_eq!(trim(s), s.trim(), "{s:?}");
    }
}

#[test]
fn endpoint_location_is_hyphenated_lowercase() {
    let id: u128 = 0xa1a2a3a4_b1b2_c1c2_d1d2_d3d4d5d6d7d8;
    assert_eq!(endpoint_location(id), "/endpoints/a1a2a3a4-b1b2-c1c2-d1d2-d3d4d5d6d7d8");
}

#[test]
fn headers_are_grouped_by_lowercase_name_in_order() {
    let headers = vec![
        header("X-B", Some("1")),
        header("accept", Some("*/*")),
        header("x-b", Some("2")),
        header("X-Bin", None),
        header("Accept", Some("text/html")),
    ];
    let groups = group_headers(&headers);
    let names: Vec<&str> = groups.iter().map(|g| g.0.as_str()).collect();
    assert_eq!(names, vec!["accept", "x-b", "x-bin"]);
    assert_eq!(groups[0].1, vec!["*/*".to_string(), "text/html".to_string()]);
    assert_eq!(groups[1].1, vec!["1".to_string(), "2".to_string()]);
    assert_eq!(groups[2].1, vec!["<binary>".to_string()]);
}

#[test]
fn headers_json_is_an_object_of_arrays() {
    let mut store = Store::new();
    let e = db::create_endpoint(&mut store, "E", "").unwrap();
    let headers = vec![header("X-Custom", Some("hello")), header("x-custom", Some("again")), header("host", Some("h"))];
    ingest(&mut store, e.id, "POST", "/webhooks/e", Some(""), "::1", &headers, b"{}", 250).unwrap();
    let id = db::list_webhooks_for_endpoint(&store, e.id, 1)[0].id;
    let saved = db::get_webhook(&store, id).unwrap();
    assert_eq!(saved.headers_json, r#"{"host":["h"],"x-custom":["hello","again"]}"#);
    assert_eq!(saved.query, "");
}

#[test]
fn ingest_respects_the_retention() {
    let mut store = Store::new();
    let e = db::create_endpoint(&mut store, "E", "").unwrap();
    for _ in 0..4 {
        ingest(&mut store, e.id, "POST", "/p", None, "ip", &Vec::new(), b"", 3).unwrap();
    }
    assert_eq!(db::list_webhooks_for_endpoint(&store, e.id, -1).len(), 3);
}

#[test]
fn millis_round_toward_zero() {
    assert_eq!(millis_from_nanos(0), 0);
    assert_eq!(millis_from_nanos(1_999_999), 1);
    assert_eq!(millis_from_nanos(-1_999_999), -1);
    assert_eq!(millis_from_nanos(1_715_000_000_123_456_789), 1_715_000_000_123);
    assert_eq!(millis_from_nanos(i128::MIN), (i128::MIN / 1_000_000) as i64);
    assert_eq!(millis_from_nanos(i128::MAX), (i128::MAX / 1_000_000) as i64);
}

#[test]
fn error_statuses_never_leak_details() {
    assert_eq!(AppError::NotFound.status_and_message(), (404, "Not found".to_string()));
    assert_eq!(AppError::Internal("secret".to_string()).status_and_message(), (500, "Internal error".to_string()));
    assert_eq!(AppError::Template("t".to_string()).status_and_message(), (500, "Internal error".to_string()));
    assert_eq!(
        AppError::Database(db::StoreError::UnknownEndpoint).status_and_message(),
        (500, "Internal error".to_string())
    );
}

#[test]
fn forced_status_hides_errors_only() {
    assert_eq!(forced_status(200), 200);
    assert_eq!(forced_status(303), 303);
    assert_eq!(forced_status(404), 200);
    assert_eq!(forced_status(413), 200);
    assert_eq!(forced_status(500), 200);
    assert_eq!(forced_status(599), 200);
    assert_eq!(forced_status(600), 600);
    assert_eq!(forced_status(399), 399);
}

#[test]
fn session_cookie_must_match_token() {
    assert!(session_is_valid(Some("tok-1"), "tok-1"));
    assert!(!session_is_valid(Some("tok-2"), "tok-1"));
    assert!(!session_is_valid(Some("tok-1x"), "tok-1"));
    assert!(!session_is_valid(None, "tok-1"));
    assert!(str_equal("\u{e9}", "\u{e9}"));
    assert!(!str_equal("\u{e9}", "e"));
}

#[test]
fn login_needs_both_credentials() {
    assert!(credentials_match("u", "p", "u", "p"));
    assert!(!credentials_match("u", "wrong", "u", "p"));
    assert!(!credentials_match("U", "p", "u", "p"));
    assert!(!credentials_match("", "", "u", "p"));
}
