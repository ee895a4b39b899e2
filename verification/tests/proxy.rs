use axum::http::header::{HeaderMap, HeaderName, HeaderValue};
use keyring_proxy::config::{AuthHeader, Config};
use keyring_proxy::exchange::{build_response, Answer, Forward};
use keyring_proxy::proxy::{
    build_target_url, exhausted_response, prepare_forward, ProxyError, Session, Step,
};
use keyring_proxy::state::AppState;

fn state(keys: &[&str]) -> AppState {
    AppState::new(Config {
        listen: String::new(),
        upstream: "https://up".to_string(),
        auth_header: AuthHeader::Authorization,
        keys: keys.iter().map(|k| k.to_string()).collect(),
        exhaustion_markers: vec![],
        failover_statuses: vec![],
    })
}

fn retried(step: Step) -> usize {
    match step {
        Step::Retry { key_index } => key_index,
        _ => panic!("no further attempt"),
    }
}

#[test]
fn target_urls() {
    assert_eq!(build_target_url("https://up", "/v1/messages", None), "https://up/v1/messages");
    assert_eq!(
        build_target_url("https://up/base", "/v1", Some("a=1&b=2")),
        "https://up/base/v1?a=1&b=2"
    );
    assert_eq!(build_target_url("u", "/", Some("")), "u/?");
}

#[test]
fn error_replies() {
    let cause = || "cause".to_string();
    let cases = vec![
        (
            ProxyError::RequestBody { cause: cause() },
            "proxy error: не удалось прочитать тело запроса: cause",
        ),
        (
            ProxyError::AuthHeader { cause: cause() },
            "proxy error: некорректное значение auth-заголовка: cause",
        ),
        (
            ProxyError::TooManyHeaders,
            "proxy error: слишком много заголовков",
        ),
        (
            ProxyError::Method { cause: cause() },
            "proxy error: некорректный метод: cause",
        ),
        (
            ProxyError::Upstream { cause: cause() },
            "proxy error: upstream-запрос не удался: cause",
        ),
        (
            ProxyError::ResponseBody { cause: cause() },
            "proxy error: не удалось прочитать тело ответа upstream: cause",
        ),
        (
            ProxyError::Stream { cause: cause() },
            "proxy error: ошибка чтения стрима upstream: cause",
        ),
    ];
    for (error, text) in cases {
        let reply = error.reply();
        assert_eq!(reply.status, 502);
        assert_eq!(reply.text, text);
    }
}

#[test]
fn exhausted_replies() {
    let reply = exhausted_response(429);
    assert_eq!(reply.status, 429);
    assert_eq!(reply.kind, "error");
    assert_eq!(reply.error_kind, "all_keys_exhausted");
    assert_eq!(
        reply.message,
        "Все API-ключи исчерпали лимит (proxy ring rotation)."
    );
    assert_eq!(exhausted_response(99).status, 402);
    assert_eq!(exhausted_response(1000).status, 402);
    assert_eq!(exhausted_response(999).status, 999);
}

#[test]
fn a_prepared_request_is_counted() {
    let mut state = state(&["a", "b"]);
    let mut incoming = HeaderMap::new();
    incoming.insert("accept", HeaderValue::from_static("v"));
    let out = prepare_forward(&mut state, 1, b"POST", &incoming).ok().unwrap();
    assert_eq!(out.method, "POST");
    assert_eq!(out.headers.len(), 2);
    assert_eq!(out.headers["authorization"], "Bearer b");
    assert_eq!(out.headers["accept"], "v");
    let snapshot = state.snapshot();
    assert_eq!(snapshot.requests_total, 1);
    assert_eq!(snapshot.per_key[1].requests, 1);
}

#[test]
fn a_request_that_cannot_be_made_is_not_counted() {
    let mut state = state(&["a\nb", "c"]);
    let error = prepare_forward(&mut state, 0, b"GET", &HeaderMap::new()).err().unwrap();
    assert_eq!(
        error.message(),
        "некорректное значение auth-заголовка: failed to parse header value"
    );
    for method in [&b""[..], b"G T", b"GET\n", b"\xc3\xa9"] {
        let error = prepare_forward(&mut state, 1, method, &HeaderMap::new()).err().unwrap();
        assert_eq!(error.message(), "некорректный метод: invalid HTTP method");
    }
    assert_eq!(state.snapshot().requests_total, 0);
    let out = prepare_forward(&mut state, 1, b"X-custom!", &HeaderMap::new()).ok().unwrap();
    assert_eq!(out.method, "X-custom!");
}

#[test]
fn a_request_with_too_many_headers_is_not_counted() {
    let mut incoming = HeaderMap::new();
    let mut i: u32 = 0;
    loop {
        let name = HeaderName::from_bytes(format!("x-{}", i).as_bytes()).unwrap();
        if incoming.try_insert(name, HeaderValue::from(i)).is_err() {
            break;
        }
        i += 1;
    }
    let mut state = state(&["a"]);
    let error = prepare_forward(&mut state, 0, b"GET", &incoming).err().unwrap();
    assert!(matches!(error, ProxyError::TooManyHeaders));
    assert_eq!(state.snapshot().requests_total, 0);
}

#[test]
fn a_request_alone_tries_each_key_once() {
    let mut state = state(&["a", "b", "c"]);
    state.rotate_from(0);
    let mut session = Session::begin(&state);
    let mut tried = vec![session.key_index()];
    let last = loop {
        state.record_request(session.key_index());
        match session.step(&mut state, Ok(Forward::Exhausted { status: 400 + tried.len() as u16 })) {
            Step::Retry { key_index } => {
                assert_eq!(key_index, session.key_index());
                tried.push(key_index);
            }
            Step::Refuse(reply) => break reply,
            _ => panic!("another end"),
        }
    };
    assert_eq!(tried, vec![1, 2, 0]);
    assert_eq!(last.status, 403);
    let snapshot = state.snapshot();
    assert!(snapshot.per_key.iter().all(|status| status.requests == 1));
    assert_eq!(snapshot.active_key_index, 0);
    assert_eq!(snapshot.failovers_total, 3);
}

#[test]
fn two_requests_refused_on_one_key_skip_none() {
    let mut state = state(&["a", "b", "c"]);
    let mut one = Session::begin(&state);
    let mut two = Session::begin(&state);
    assert_eq!(
        retried(one.step(&mut state, Ok(Forward::Exhausted { status: 402 }))),
        1
    );
    assert_eq!(
        retried(two.step(&mut state, Ok(Forward::Exhausted { status: 402 }))),
        1
    );
    assert_eq!(state.active_index(), 1);
    assert_eq!(state.snapshot().failovers_total, 1);
}

#[test]
fn a_single_key_is_tried_once() {
    let mut state = state(&["a"]);
    let mut session = Session::begin(&state);
    let step = session.step(&mut state, Ok(Forward::Exhausted { status: 402 }));
    assert!(matches!(step, Step::Refuse(reply) if reply.status == 402));
    assert_eq!(state.snapshot().failovers_total, 0);
}

#[test]
fn answers_and_failures_end_a_request() {
    let mut state = state(&["a", "b"]);
    let mut session = Session::begin(&state);
    let answer = build_response(200, &HeaderMap::new());
    let step = session.step(&mut state, Ok(Forward::Pass(answer)));
    assert!(matches!(step, Step::Reply(Answer::Relay(head)) if head.status == 200));
    let error = ProxyError::Upstream {
        cause: "down".to_string(),
    };
    let step = session.step(&mut state, Err(error));
    assert!(matches!(step, Step::Fail(reply)
        if reply.status == 502 && reply.text == "proxy error: upstream-запрос не удался: down"));
    assert_eq!(state.active_index(), 0);
}
