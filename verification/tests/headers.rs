use axum::http::header::{HeaderMap, HeaderName, HeaderValue};
use keyring_proxy::config::AuthHeader;
use keyring_proxy::headers::{
    is_event_stream, is_hop_by_hop, request_headers, response_headers, HeaderError,
};

fn headers(fields: &[(&str, &str)]) -> HeaderMap {
    let mut map = HeaderMap::new();
    for (name, value) in fields {
        map.append(
            HeaderName::from_bytes(name.as_bytes()).unwrap(),
            HeaderValue::from_bytes(value.as_bytes()).unwrap(),
        );
    }
    map
}

fn values(map: &HeaderMap, name: &str) -> Vec<Vec<u8>> {
    map.get_all(name).iter().map(|v| v.as_bytes().to_vec()).collect()
}

fn made(incoming: &HeaderMap, auth: AuthHeader, key: &str) -> HeaderMap {
    match request_headers(incoming, auth, key) {
        Ok(map) => map,
        Err(_) => panic!("no headers"),
    }
}

const HOP_BY_HOP: [&str; 10] = [
    "connection",
    "keep-alive",
    "proxy-authenticate",
    "proxy-authorization",
    "te",
    "trailer",
    "transfer-encoding",
    "upgrade",
    "host",
    "content-length",
];

#[test]
fn hop_by_hop_names() {
    for name in HOP_BY_HOP {
        assert!(is_hop_by_hop(name));
    }
    for name in ["", "t", "tea", "Host", "accept", "x-api-key", "trailers"] {
        assert!(!is_hop_by_hop(name));
    }
}

#[test]
fn key_replaces_the_credentials_of_the_client() {
    let incoming = headers(&[
        ("X-Api-Key", "theirs"),
        ("Authorization", "Bearer theirs"),
        ("Accept", "one"),
        ("accept", "two"),
        ("x-other", "kept"),
    ]);
    let map = made(&incoming, AuthHeader::XApiKey, "ours");
    assert_eq!(map.len(), 3);
    assert_eq!(values(&map, "x-api-key"), vec![b"ours".to_vec()]);
    assert_eq!(values(&map, "accept"), vec![b"two".to_vec()]);
    assert_eq!(values(&map, "x-other"), vec![b"kept".to_vec()]);

    let map = made(&incoming, AuthHeader::Authorization, "ours");
    assert_eq!(map.len(), 3);
    assert_eq!(values(&map, "authorization"), vec![b"Bearer ours".to_vec()]);
    assert!(!map.contains_key("x-api-key"));
}

#[test]
fn hop_by_hop_headers_do_not_travel() {
    let mut fields: Vec<(&str, &str)> = HOP_BY_HOP.iter().map(|name| (*name, "v")).collect();
    fields.push(("accept", "v"));
    let map = made(&headers(&fields), AuthHeader::XApiKey, "k");
    assert_eq!(map.len(), 2);
    assert!(map.contains_key("accept"));
}

#[test]
fn credentials_of_the_client_change_nothing() {
    let with = headers(&[("authorization", "a"), ("accept", "v"), ("host", "h")]);
    let without = headers(&[("accept", "v")]);
    assert_eq!(
        made(&with, AuthHeader::XApiKey, "k"),
        made(&without, AuthHeader::XApiKey, "k")
    );
}

#[test]
fn a_key_with_control_characters_is_refused() {
    let incoming = headers(&[("accept", "v")]);
    for key in ["a\nb", "\0", "a\u{7f}"] {
        let result = request_headers(&incoming, AuthHeader::XApiKey, key);
        assert!(matches!(result, Err(HeaderError::AuthValue(_))));
    }
    let map = made(&incoming, AuthHeader::XApiKey, "tab\tи");
    assert_eq!(values(&map, "x-api-key"), vec!["tab\tи".as_bytes().to_vec()]);
}

#[test]
fn answers_keep_their_headers() {
    let upstream = headers(&[
        ("set-cookie", "a=1"),
        ("content-type", "text/html"),
        ("set-cookie", "b=2"),
        ("connection", "close"),
        ("content-length", "10"),
        ("transfer-encoding", "chunked"),
    ]);
    let map = response_headers(&upstream).unwrap();
    assert_eq!(map.keys_len(), 2);
    assert_eq!(values(&map, "set-cookie"), vec![b"a=1".to_vec(), b"b=2".to_vec()]);
    assert_eq!(values(&map, "content-type"), vec![b"text/html".to_vec()]);
}

#[test]
fn hop_by_hop_headers_do_not_come_back() {
    let mut fields: Vec<(&str, &str)> = HOP_BY_HOP.iter().map(|name| (*name, "v")).collect();
    fields.push(("x-id", "7"));
    let map = response_headers(&headers(&fields)).unwrap();
    assert_eq!(map.len(), 1);
    assert_eq!(values(&map, "x-id"), vec![b"7".to_vec()]);
}

#[test]
fn answers_keep_bytes_that_are_not_text() {
    let mut upstream = HeaderMap::new();
    upstream.insert("x-raw", HeaderValue::from_bytes(b"\xff\xfe").unwrap());
    let map = response_headers(&upstream).unwrap();
    assert_eq!(values(&map, "x-raw"), vec![b"\xff\xfe".to_vec()]);
}

#[test]
fn a_name_that_is_no_token_does_not_come_back() {
    let mut upstream = HeaderMap::new();
    upstream.insert(HeaderName::from_static("x\"y"), HeaderValue::from_static("v"));
    upstream.insert(HeaderName::from_static("x-y"), HeaderValue::from_static("v"));
    let map = response_headers(&upstream).unwrap();
    assert_eq!(map.len(), 1);
    assert!(map.contains_key("x-y"));
}

#[test]
fn event_streams_by_content_type() {
    assert!(is_event_stream(&headers(&[("content-type", "text/event-stream")])));
    assert!(is_event_stream(&headers(&[(
        "Content-Type",
        "text/event-stream; charset=utf-8"
    )])));
    assert!(!is_event_stream(&headers(&[("content-type", "application/json")])));
    assert!(!is_event_stream(&headers(&[("content-type", "TEXT/EVENT-STREAM")])));
    assert!(!is_event_stream(&headers(&[("accept", "text/event-stream")])));
    assert!(!is_event_stream(&headers(&[
        ("content-type", "text/plain"),
        ("content-type", "text/event-stream"),
    ])));
    assert!(!is_event_stream(&headers(&[("content-type", "text/event-stream; и")])));
}

/// As many names as a map takes.
fn full_map() -> HeaderMap {
    let mut map = HeaderMap::new();
    let mut i: u32 = 0;
    loop {
        let name = HeaderName::from_bytes(format!("x-{}", i).as_bytes()).unwrap();
        if map.try_insert(name, HeaderValue::from(i)).is_err() {
            return map;
        }
        i += 1;
    }
}

#[test]
fn a_full_map_has_no_room_for_the_key() {
    let incoming = full_map();
    let result = request_headers(&incoming, AuthHeader::XApiKey, "k");
    assert!(matches!(result, Err(HeaderError::TooMany)));
}

#[test]
fn many_names_travel() {
    let mut incoming = HeaderMap::new();
    for i in 0..6000 {
        let name = HeaderName::from_bytes(format!("x-{}", i).as_bytes()).unwrap();
        incoming.insert(name, HeaderValue::from(i));
    }
    let map = made(&incoming, AuthHeader::XApiKey, "k");
    assert_eq!(map.len(), 6001);
    assert_eq!(values(&map, "x-5999"), vec![b"5999".to_vec()]);
    assert_eq!(response_headers(&incoming).unwrap().len(), 6000);
}
