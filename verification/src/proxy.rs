//! The course of one request: which key each attempt takes, and what the client is told.

use crate::exchange::{Answer, Forward, PlainReply};
use crate::exchange::{is_status, status_code};
use crate::headers::{ascii_text, forwarded, header_contents, is_token_byte, is_value, ROOM};
use crate::headers::{request_headers, HeaderError};
use crate::pool::{bump, Pool};
use crate::state::AppState;
use axum::http::header::InvalidHeaderValue;
use axum::http::method::InvalidMethod;
use axum::http::{HeaderMap, Method};
use vstd::prelude::*;
use vstd::utf8::encode_utf8;

verus! {

#[verifier::external_type_specification]
#[verifier::external_body]
pub struct ExInvalidMethod(axum::http::method::InvalidMethod);

/// Bytes that make a method: a token.
pub open spec fn is_method(bytes: Seq<u8>) -> bool {
    &&& bytes.len() > 0
    &&& forall|i: int| 0 <= i < bytes.len() ==> is_token_byte(#[trigger] bytes[i])
}

/// `Method::from_bytes` takes a token as it is.
#[verifier::external_body]
fn method_from_bytes(src: &[u8]) -> (result: Result<String, InvalidMethod>)
    ensures
        result is Ok <==> is_method(src@),
        result matches Ok(method) ==> method@ == ascii_text(src@),
{
    Method::from_bytes(src).map(|method| method.as_str().to_string())
}

/// The words of an `InvalidMethod`.
#[verifier::external_body]
fn method_error_text(error: &InvalidMethod) -> (text: String)
    ensures
        text@ == "invalid HTTP method"@,
{
    error.to_string()
}

/// The words of an `InvalidHeaderValue`.
#[verifier::external_body]
fn value_error_text(error: &InvalidHeaderValue) -> (text: String)
    ensures
        text@ == "failed to parse header value"@,
{
    error.to_string()
}

/// The address of a request at the upstream.
pub open spec fn target_url(
    upstream: Seq<char>,
    path: Seq<char>,
    query: Option<Seq<char>>,
) -> Seq<char> {
    match query {
        Some(query) => upstream + path + "?"@ + query,
        None => upstream + path,
    }
}

/// The view of a text that may be missing.
pub open spec fn text_of(text: Option<&str>) -> Option<Seq<char>> {
    match text {
        Some(text) => Some(text@),
        None => None,
    }
}

/// The address of a request at the upstream: its path and query behind the upstream.
pub fn build_target_url(upstream: &str, path: &str, query: Option<&str>) -> (url: String)
    ensures
        url@ == target_url(upstream@, path@, text_of(query)),
        query is None ==> url@ == upstream@ + path@,
        query matches Some(q) ==> url@ == upstream@ + path@ + "?"@ + q@,
{
    let url = upstream.to_string().concat(path);
    match query {
        Some(query) => url.concat("?").concat(query),
        None => url,
    }
}

/// Why a request could not be carried out.
#[derive(Debug)]
pub enum ProxyError {
    /// The body of the request could not be read.
    RequestBody { cause: String },
    /// The key cannot stand in a header.
    AuthHeader { cause: String },
    /// The request has more header fields than can be passed on.
    TooManyHeaders,
    /// The method is no method.
    Method { cause: String },
    /// The upstream could not be reached.
    Upstream { cause: String },
    /// The answer of the upstream could not be read.
    ResponseBody { cause: String },
    /// The stream of the upstream could not be read.
    Stream { cause: String },
}

impl ProxyError {
    /// The error in words.
    pub open spec fn words(self) -> Seq<char> {
        match self {
            ProxyError::RequestBody { cause } => "не удалось прочитать тело запроса: "@ + cause@,
            ProxyError::AuthHeader { cause } => "некорректное значение auth-заголовка: "@
                + cause@,
            ProxyError::TooManyHeaders => "слишком много заголовков"@,
            ProxyError::Method { cause } => "некорректный метод: "@ + cause@,
            ProxyError::Upstream { cause } => "upstream-запрос не удался: "@ + cause@,
            ProxyError::ResponseBody { cause } => "не удалось прочитать тело ответа upstream: "@
                + cause@,
            ProxyError::Stream { cause } => "ошибка чтения стрима upstream: "@ + cause@,
        }
    }

    /// The error in words.
    pub fn message(&self) -> (text: String)
        ensures
            text@ == self.words(),
    {
        match self {
            ProxyError::RequestBody { cause } => "не удалось прочитать тело запроса: ".to_string().concat(
                cause.as_str(),
            ),
            ProxyError::AuthHeader { cause } => "некорректное значение auth-заголовка: ".to_string().concat(
                cause.as_str(),
            ),
            ProxyError::TooManyHeaders => "слишком много заголовков".to_string(),
            ProxyError::Method { cause } => "некорректный метод: ".to_string().concat(
                cause.as_str(),
            ),
            ProxyError::Upstream { cause } => "upstream-запрос не удался: ".to_string().concat(
                cause.as_str(),
            ),
            ProxyError::ResponseBody { cause } =>
            "не удалось прочитать тело ответа upstream: ".to_string().concat(cause.as_str()),
            ProxyError::Stream { cause } => "ошибка чтения стрима upstream: ".to_string().concat(
                cause.as_str(),
            ),
        }
    }

    /// What the client is told: a bad gateway, and why.
    pub fn reply(&self) -> (reply: PlainReply)
        ensures
            reply.status == 502,
            reply.text@ == "proxy error: "@ + self.words(),
    {
        PlainReply {
            status: 502,
            text: "proxy error: ".to_string().concat(self.message().as_str()),
        }
    }
}

/// What the client is told when every key is exhausted.
#[derive(Debug)]
pub struct ExhaustedReply {
    pub status: u16,
    /// The type of the reply.
    pub kind: String,
    /// The type of the error in it.
    pub error_kind: String,
    pub message: String,
}

/// The status of a refusal as a status of a reply; a payment is required where it is none.
pub open spec fn exhausted_status(status: u16) -> u16 {
    if is_status(status) {
        status
    } else {
        402
    }
}

/// `reply` says that every key is exhausted, with the status of the last refusal.
pub open spec fn is_exhausted_reply(reply: ExhaustedReply, status: u16) -> bool {
    &&& reply.status == exhausted_status(status)
    &&& reply.kind@ == "error"@
    &&& reply.error_kind@ == "all_keys_exhausted"@
    &&& reply.message@ == "Все API-ключи исчерпали лимит (proxy ring rotation)."@
}

/// What the client is told when every key is exhausted, the last one with this status.
pub fn exhausted_response(status: u16) -> (reply: ExhaustedReply)
    ensures
        is_exhausted_reply(reply, status),
        100 <= status <= 999 ==> reply.status == status,
        !(100 <= status <= 999) ==> reply.status == 402,
{
    let status = match status_code(status) {
        Some(code) => code,
        None => 402,
    };
    ExhaustedReply {
        status,
        kind: "error".to_string(),
        error_kind: "all_keys_exhausted".to_string(),
        message: "Все API-ключи исчерпали лимит (proxy ring rotation).".to_string(),
    }
}

/// What is sent to the upstream, apart from address and body.
pub struct Outgoing {
    pub method: String,
    pub headers: HeaderMap,
}

/// Make the request to the upstream for one attempt, with the key at `key_index`, and count it.
///
/// A request that cannot be made is not counted.
pub fn prepare_forward(
    state: &mut AppState,
    key_index: usize,
    method: &[u8],
    incoming: &HeaderMap,
) -> (result: Result<Outgoing, ProxyError>)
    requires
        old(state)@.wf(),
        key_index < old(state)@.keys.len(),
    ensures
        ({
            let auth = old(state).configured().auth_header;
            let key = old(state)@.keys[key_index as int];
            let sendable = is_value(encode_utf8(auth.value(key)));
            match result {
                Ok(out) => {
                    &&& sendable && is_method(method@)
                    &&& out.method@ == ascii_text(method@)
                    &&& header_contents(out.headers) == forwarded(
                        header_contents(*incoming),
                        auth,
                        key,
                    )
                    &&& final(state)@ == old(state)@.recorded(key_index as int)
                },
                Err(error) => {
                    &&& final(state)@ == old(state)@
                    &&& match error {
                        ProxyError::AuthHeader { cause } => !sendable && cause@
                            == "failed to parse header value"@,
                        ProxyError::TooManyHeaders => header_contents(*incoming).dom().len()
                            >= ROOM,
                        ProxyError::Method { cause } => sendable && !is_method(method@) && cause@
                            == "invalid HTTP method"@,
                        _ => false,
                    }
                },
            }
        }),
        final(state)@.wf(),
        final(state).configured() == old(state).configured(),
{
    let auth = state.config().auth_header;
    let headers = match request_headers(incoming, auth, state.key_at(key_index)) {
        Ok(headers) => headers,
        Err(HeaderError::AuthValue(error)) => {
            return Err(ProxyError::AuthHeader { cause: value_error_text(&error) });
        },
        Err(HeaderError::TooMany) => {
            return Err(ProxyError::TooManyHeaders);
        },
    };
    let method = match method_from_bytes(method) {
        Ok(method) => method,
        Err(error) => {
            return Err(ProxyError::Method { cause: method_error_text(&error) });
        },
    };
    state.record_request(key_index);
    Ok(Outgoing { method, headers })
}

/// The attempts of one request.
#[derive(Debug)]
pub struct Session {
    attempt: usize,
    key_index: usize,
}

/// The model of a [`Session`].
pub struct Try {
    /// The number of the attempt that is being made; the first is 1.
    pub attempt: int,
    /// The position of the key that it takes.
    pub key_index: int,
}

impl View for Session {
    type V = Try;

    closed spec fn view(&self) -> Try {
        Try { attempt: self.attempt as int, key_index: self.key_index as int }
    }
}

impl Try {
    /// The first attempt, with the active key.
    pub open spec fn first(pool: Pool) -> Try {
        Try { attempt: 1, key_index: pool.active }
    }

    /// The attempt is one of as many as the ring has keys, with a key of the ring.
    pub open spec fn fits(self, pool: Pool) -> bool {
        &&& 1 <= self.attempt <= pool.keys.len()
        &&& 0 <= self.key_index < pool.keys.len()
    }

    /// A refusal of this attempt is the last one: there were as many attempts as there are keys.
    pub open spec fn is_last(self, pool: Pool) -> bool {
        self.attempt >= pool.keys.len()
    }

    /// The attempt after a refusal of this one, with the key that is active then.
    pub open spec fn again(self, pool: Pool) -> Try {
        Try { attempt: self.attempt + 1, key_index: pool.rotated(self.key_index).active }
    }
}

/// What comes after an attempt.
pub enum Step {
    /// Give the client this answer.
    Reply(Answer),
    /// Tell the client that every key is exhausted.
    Refuse(ExhaustedReply),
    /// Tell the client that the request could not be carried out.
    Fail(PlainReply),
    /// Make one more attempt, with the key at this position.
    Retry { key_index: usize },
}

impl Session {
    /// The first attempt of a request takes the active key.
    pub fn begin(state: &AppState) -> (session: Session)
        requires
            state@.wf(),
            state@.keys.len() > 0,
        ensures
            session@ == Try::first(state@),
            session@.key_index == state@.active,
            session@.fits(state@),
    {
        Session { attempt: 1, key_index: state.active_index() }
    }

    /// The position of the key that the attempt takes.
    pub fn key_index(&self) -> (index: usize)
        ensures
            index == self@.key_index,
    {
        self.key_index
    }

    /// Decide what comes after an attempt that ended with `outcome`.
    ///
    /// A refusal moves the ring on and leads to one more attempt, until there were as many
    /// attempts as there are keys.  Everything else ends the request.
    pub fn step(&mut self, state: &mut AppState, outcome: Result<Forward, ProxyError>) -> (step:
        Step)
        requires
            old(state)@.wf(),
            old(self)@.fits(old(state)@),
        ensures
            match outcome {
                Err(error) => {
                    &&& step matches Step::Fail(reply) && reply.status == 502 && reply.text@
                        == "proxy error: "@ + error.words()
                    &&& final(self)@ == old(self)@
                    &&& final(state)@ == old(state)@
                },
                Ok(Forward::Pass(answer)) => {
                    &&& step == Step::Reply(answer)
                    &&& final(self)@ == old(self)@
                    &&& final(state)@ == old(state)@
                },
                Ok(Forward::Exhausted { status }) => if old(self)@.is_last(old(state)@) {
                    &&& step matches Step::Refuse(reply) && is_exhausted_reply(reply, status)
                    &&& final(self)@ == old(self)@
                    &&& final(state)@ == old(state)@
                } else {
                    &&& step matches Step::Retry { key_index } && key_index
                        == final(self)@.key_index
                    &&& final(self)@ == old(self)@.again(old(state)@)
                    &&& final(state)@ == old(state)@.rotated(old(self)@.key_index)
                },
            },
            outcome matches Ok(Forward::Exhausted { status }) ==> {
                &&& step is Retry <==> old(self)@.attempt < old(state)@.keys.len()
                &&& step is Refuse <==> old(self)@.attempt >= old(state)@.keys.len()
            },
            step matches Step::Retry { key_index } ==> {
                &&& key_index == final(state)@.active
                &&& final(self)@.key_index == key_index
                &&& final(self)@.attempt == old(self)@.attempt + 1
                &&& old(self)@.key_index != old(state)@.active ==> final(state)@ == old(state)@
            },
            final(self)@.fits(final(state)@),
            final(state)@.wf(),
            final(state).configured() == old(state).configured(),
    {
        match outcome {
            Err(error) => Step::Fail(error.reply()),
            Ok(Forward::Pass(answer)) => Step::Reply(answer),
            Ok(Forward::Exhausted { status }) => {
                if self.attempt >= state.key_count() {
                    return Step::Refuse(exhausted_response(status));
                }
                let next = state.rotate_from(self.key_index);
                self.attempt = self.attempt + 1;
                self.key_index = next;
                Step::Retry { key_index: next }
            },
        }
    }
}

/// The attempt after some refusals, each of them in the ring as it was at that moment.
pub open spec fn after_refusals(start: Try, pools: Seq<Pool>) -> Try
    decreases pools.len(),
{
    if pools.len() == 0 {
        start
    } else {
        after_refusals(start, pools.drop_last()).again(pools.last())
    }
}

/// However other requests move the ring in between, every attempt takes a key of the ring, and
/// a request ends with the refusal whose number is the number of keys: not earlier, not later.
pub proof fn law_every_request_ends(pool: Pool, pools: Seq<Pool>)
    requires
        pool.wf(),
        pools.len() < pool.keys.len(),
        forall|i: int|
            0 <= i < pools.len() ==> (#[trigger] pools[i]).wf() && pools[i].keys == pool.keys,
    ensures
        ({
            let attempt = after_refusals(Try::first(pool), pools);
            &&& attempt.attempt == pools.len() + 1
            &&& attempt.fits(pool)
            &&& attempt.is_last(pool) <==> pools.len() + 1 == pool.keys.len()
        }),
    decreases pools.len(),
{
    if pools.len() > 0 {
        let earlier = pools.drop_last();
        assert(forall|i: int| 0 <= i < earlier.len() ==> #[trigger] earlier[i] == pools[i]);
        law_every_request_ends(pool, earlier);
        let last = pools[pools.len() - 1];
        let before = after_refusals(Try::first(pool), earlier);
        crate::pool::lemma_rotated_wf(last, before.key_index);
    }
}

/// Attempt and ring when a request makes its attempt after `count` refusals, and no other request
/// is under way: each attempt was counted and then refused.
pub open spec fn alone(pool: Pool, count: nat) -> (Try, Pool)
    decreases count,
{
    if count == 0 {
        (Try::first(pool), pool)
    } else {
        let (attempt, before) = alone(pool, (count - 1) as nat);
        let sent = before.recorded(attempt.key_index);
        (attempt.again(sent), sent.rotated(attempt.key_index))
    }
}

/// How far behind the active key a position lies in the ring.
pub open spec fn distance(pool: Pool, index: int) -> int {
    (index - pool.active) % (pool.keys.len() as int)
}

/// A request that is alone tries the keys one after the other, from the active one on: each
/// attempt takes the next key of the ring, no key is taken twice before all were taken, and each
/// key that was tried has counted one request.
pub proof fn law_request_alone_tries_each_key_once(pool: Pool, count: nat)
    requires
        pool.wf(),
        count < pool.keys.len(),
    ensures
        ({
            let (attempt, ring) = alone(pool, count);
            &&& attempt.attempt == count + 1
            &&& attempt.key_index == ring.active == (pool.active + count) % (pool.keys.len() as int)
            &&& distance(pool, attempt.key_index) == count
            &&& ring.wf()
            &&& ring.keys == pool.keys
            &&& forall|i: int|
                0 <= i < pool.keys.len() ==> #[trigger] ring.requests[i] == if distance(pool, i)
                    < count {
                    bump(pool.requests[i])
                } else {
                    pool.requests[i]
                }
        }),
    decreases count,
{
    let n = pool.keys.len() as int;
    lemma_distance(pool, count as int);
    if count == 0 {
        vstd::arithmetic::div_mod::lemma_small_mod(pool.active as nat, n as nat);
    } else {
        let (before, ring) = alone(pool, (count - 1) as nat);
        law_request_alone_tries_each_key_once(pool, (count - 1) as nat);
        let sent = ring.recorded(before.key_index);
        crate::pool::lemma_recorded_wf(ring, before.key_index);
        crate::pool::lemma_rotated_wf(sent, before.key_index);
        vstd::arithmetic::div_mod::lemma_add_mod_noop_right(1, pool.active + count - 1, n);
        assert forall|i: int| 0 <= i < n implies #[trigger] sent.requests[i] == if distance(
            pool,
            i,
        ) < count {
            bump(pool.requests[i])
        } else {
            pool.requests[i]
        } by {
            if i != before.key_index {
                lemma_distance_differs(pool, i, before.key_index);
            }
        }
    }
}

/// A request that is alone reaches every key before it ends.
pub proof fn law_request_alone_reaches_every_key(pool: Pool, index: int)
    requires
        pool.wf(),
        0 <= index < pool.keys.len(),
    ensures
        0 <= distance(pool, index) < pool.keys.len(),
        alone(pool, distance(pool, index) as nat).0.key_index == index,
{
    let n = pool.keys.len() as int;
    let count = distance(pool, index);
    vstd::arithmetic::div_mod::lemma_mod_bound(index - pool.active, n);
    law_request_alone_tries_each_key_once(pool, count as nat);
    vstd::arithmetic::div_mod::lemma_add_mod_noop_right(pool.active, index - pool.active, n);
    vstd::arithmetic::div_mod::lemma_small_mod(index as nat, n as nat);
}

/// As many steps behind the active key lies the key at that distance.
proof fn lemma_distance(pool: Pool, steps: int)
    requires
        pool.wf(),
        0 <= steps < pool.keys.len(),
    ensures
        distance(pool, (pool.active + steps) % (pool.keys.len() as int)) == steps,
{
    let n = pool.keys.len() as int;
    vstd::arithmetic::div_mod::lemma_sub_mod_noop(pool.active + steps, pool.active, n);
    vstd::arithmetic::div_mod::lemma_mod_twice(pool.active + steps, n);
    vstd::arithmetic::div_mod::lemma_sub_mod_noop(
        (pool.active + steps) % n,
        pool.active,
        n,
    );
    vstd::arithmetic::div_mod::lemma_small_mod(steps as nat, n as nat);
}

/// Two keys of the ring lie at different distances.
proof fn lemma_distance_differs(pool: Pool, i: int, j: int)
    requires
        pool.wf(),
        0 <= i < pool.keys.len(),
        0 <= j < pool.keys.len(),
        i != j,
    ensures
        distance(pool, i) != distance(pool, j),
{
    let n = pool.keys.len() as int;
    if distance(pool, i) == distance(pool, j) {
        vstd::arithmetic::div_mod::lemma_mod_equivalence(i - pool.active, j - pool.active, n);
        vstd::arithmetic::div_mod::lemma_mod_equivalence(i, j, n);
        vstd::arithmetic::div_mod::lemma_small_mod(i as nat, n as nat);
        vstd::arithmetic::div_mod::lemma_small_mod(j as nat, n as nat);
    }
}

} // verus!
