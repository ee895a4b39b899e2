use axum::http::header::{HeaderMap, HeaderValue};
use keyring_proxy::config::{AuthHeader, Config};
use keyring_proxy::exchange::{
    body_contains_marker, build_response, handle_buffered_response, handle_stream_response,
    judge_head, text_contains_marker, Answer, Forward, Next, MAX_BUFFER_FOR_MARKER,
};

fn config(markers: &[&str], statuses: &[u16]) -> Config {
    Config {
        listen: String::new(),
        upstream: "https://up".to_string(),
        auth_header: AuthHeader::XApiKey,
        keys: vec!["k".to_string()],
        exhaustion_markers: strings(markers),
        failover_statuses: statuses.to_vec(),
    }
}

fn strings(texts: &[&str]) -> Vec<String> {
    texts.iter().map(|t| t.to_string()).collect()
}

fn exhausted(forward: &Forward) -> Option<u16> {
    match forward {
        Forward::Exhausted { status } => Some(*status),
        Forward::Pass(_) => None,
    }
}

#[test]
fn markers_in_text() {
    let markers = strings(&["", "limit", "квота"]);
    assert!(text_contains_marker("the limit is reached", &markers));
    assert!(text_contains_marker("limit", &markers));
    assert!(text_contains_marker("исчерпана квота", &markers));
    assert!(!text_contains_marker("limi t", &markers));
    assert!(!text_contains_marker("", &markers));
    assert!(!text_contains_marker("anything", &strings(&[""])));
    assert!(!text_contains_marker("anything", &[]));
}

#[test]
fn markers_in_bodies() {
    let markers = strings(&["Usage limit reached"]);
    assert!(body_contains_marker(b"{\"error\":\"Usage limit reached\"}", &markers));
    assert!(body_contains_marker(b"\xff\xc3Usage limit reached\xe2\x82", &markers));
    assert!(!body_contains_marker(b"Usage limit\xff reached", &markers));
    let mut body = b"\xe2\x82".to_vec();
    body.extend_from_slice("квота".as_bytes());
    body.push(0xd0);
    assert!(body_contains_marker(&body, &strings(&["квота"])));
    assert!(!body_contains_marker(&body[..body.len() - 2], &strings(&["квота"])));
    assert!(!body_contains_marker(b"usage limit reached", &markers));
    assert!(!body_contains_marker(b"Usage limit reached", &[]));
    assert!(body_contains_marker(b"a\xffb", &strings(&["a\u{fffd}b"])));
}

#[test]
fn heads_are_judged_by_status_first() {
    let config = config(&[], &[401, 402, 403, 429]);
    let mut stream = HeaderMap::new();
    stream.insert("content-type", HeaderValue::from_static("text/event-stream"));
    for status in [401, 402, 403, 429] {
        assert!(matches!(
            judge_head(&config, status, &stream),
            Next::Done(Forward::Exhausted { status: said }) if said == status
        ));
    }
    assert!(matches!(judge_head(&config, 200, &stream), Next::Peek));
    assert!(matches!(judge_head(&config, 400, &HeaderMap::new()), Next::Read));
    assert!(matches!(judge_head(&config, 500, &HeaderMap::new()), Next::Read));
}

#[test]
fn bodies_are_searched_up_to_a_size() {
    let config = config(&["limit"], &[]);
    let headers = HeaderMap::new();
    let mut body = vec![b' '; MAX_BUFFER_FOR_MARKER - 5];
    body.extend_from_slice(b"limit");
    assert_eq!(
        exhausted(&handle_buffered_response(&config, 400, &headers, &body)),
        Some(400)
    );
    body.push(b' ');
    assert_eq!(
        exhausted(&handle_buffered_response(&config, 400, &headers, &body)),
        None
    );
    assert_eq!(
        exhausted(&handle_buffered_response(&config, 200, &headers, b"fine")),
        None
    );
}

#[test]
fn streams_are_judged_by_their_first_piece() {
    let config = config(&["limit"], &[]);
    let headers = HeaderMap::new();
    let judge = |first: Option<&[u8]>| {
        exhausted(&handle_stream_response(&config, 200, &headers, first))
    };
    assert_eq!(judge(Some(b"event: error\ndata: limit\n\n")), Some(200));
    assert_eq!(judge(Some(b"event: message_start")), None);
    assert_eq!(judge(Some(b"")), None);
    assert_eq!(judge(None), None);
}

#[test]
fn large_first_pieces_are_searched_whole() {
    let config = config(&["limit"], &[]);
    let mut chunk = vec![b' '; MAX_BUFFER_FOR_MARKER];
    chunk.extend_from_slice(b"limit");
    let forward = handle_stream_response(&config, 200, &HeaderMap::new(), Some(&chunk));
    assert_eq!(exhausted(&forward), Some(200));
}

#[test]
fn answers_pass_with_status_and_headers() {
    let mut headers = HeaderMap::new();
    headers.insert("x-a", HeaderValue::from_static("1"));
    headers.insert("content-length", HeaderValue::from_static("4"));
    let forward = handle_buffered_response(&config(&[], &[]), 201, &headers, b"body");
    match forward {
        Forward::Pass(Answer::Relay(head)) => {
            assert_eq!(head.status, 201);
            assert_eq!(head.headers.len(), 1);
            assert_eq!(head.headers["x-a"], "1");
        }
        _ => panic!("not passed on"),
    }
}

#[test]
fn a_number_that_is_no_status_builds_no_answer() {
    for status in [0, 99, 1000, u16::MAX] {
        match build_response(status, &HeaderMap::new()) {
            Answer::Plain(reply) => {
                assert_eq!(reply.status, 500);
                assert_eq!(reply.text, "failed to build response");
            }
            Answer::Relay(_) => panic!("an answer was built"),
        }
    }
    for status in [100, 999] {
        assert!(matches!(
            build_response(status, &HeaderMap::new()),
            Answer::Relay(head) if head.status == status
        ));
    }
}
