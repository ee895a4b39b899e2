//! What an answer of the upstream means: pass it on, or try the next key.

use crate::config::Config;
use crate::headers::{
    event_stream, header_contents, is_event_stream, response_headers, returned, Fields, ROOM,
};
use crate::text::{chars_of, find};
use crate::text::{contains_part, lemma_first_occurrence, texts};
use axum::http::{HeaderMap, StatusCode};
use vstd::prelude::*;
use vstd::utf8::{decode_utf8, encode_utf8, valid_utf8};

verus! {

/// The size up to which a whole body is searched for markers: errors are short.
pub const MAX_BUFFER_FOR_MARKER: usize = 256 * 1024;

/// The text of a body in which bytes that are not UTF-8 are replaced.
pub uninterp spec fn lossy_text(body: Seq<u8>) -> Seq<char>;

/// `part` stands in `bytes` at position `at`.
pub open spec fn bytes_at(bytes: Seq<u8>, part: Seq<u8>, at: int) -> bool {
    &&& 0 <= at
    &&& at + part.len() <= bytes.len()
    &&& bytes.subrange(at, at + part.len()) == part
}

/// `part` stands somewhere in `bytes`.
pub open spec fn contains_bytes(bytes: Seq<u8>, part: Seq<u8>) -> bool {
    exists|at: int| #[trigger] bytes_at(bytes, part, at)
}

/// `String::from_utf8_lossy` decodes UTF-8, and puts U+FFFD in the place of what is not UTF-8.
///
/// So text without that character stands in the result exactly where its bytes stand in the body.
/// How many replacements stand for a run of bytes that is not UTF-8 is left open.
#[verifier::external_body]
fn from_utf8_lossy(body: &[u8]) -> (text: String)
    ensures
        text@ == lossy_text(body@),
        valid_utf8(body@) ==> text@ == decode_utf8(body@),
        forall|part: Seq<char>|
            !part.contains('\u{FFFD}') ==> (#[trigger] contains_part(text@, part)
                <==> contains_bytes(body@, encode_utf8(part))),
{
    String::from_utf8_lossy(body).into_owned()
}

/// `StatusCode::from_u16` takes the numbers from 100 to 999.
#[verifier::external_body]
pub(crate) fn status_code(status: u16) -> (code: Option<u16>)
    ensures
        code == if is_status(status) {
            Some(status)
        } else {
            None
        },
{
    StatusCode::from_u16(status).ok().map(|code| code.as_u16())
}

/// A number that is a status.
pub open spec fn is_status(status: u16) -> bool {
    100 <= status <= 999
}

/// One of the markers, other than an empty one, stands in the text.
pub open spec fn marked(text: Seq<char>, markers: Seq<Seq<char>>) -> bool {
    exists|i: int|
        0 <= i < markers.len() && (#[trigger] markers[i]).len() > 0 && contains_part(
            text,
            markers[i],
        )
}

/// The bytes of one of the markers, other than an empty one, stand in the body.
pub open spec fn marked_bytes(body: Seq<u8>, markers: Seq<Seq<char>>) -> bool {
    exists|i: int|
        0 <= i < markers.len() && (#[trigger] markers[i]).len() > 0 && contains_bytes(
            body,
            encode_utf8(markers[i]),
        )
}

/// No marker holds U+FFFD, which stands for bytes that are not UTF-8.
pub open spec fn ordinary(markers: Seq<Seq<char>>) -> bool {
    forall|i: int| 0 <= i < markers.len() ==> !(#[trigger] markers[i]).contains('\u{FFFD}')
}

/// Whether one of the markers, other than an empty one, stands in the text.
pub fn text_contains_marker(text: &str, markers: &[String]) -> (found: bool)
    ensures
        found == marked(text@, texts(markers@)),
{
    let chars = chars_of(text);
    for i in 0..markers.len()
        invariant
            chars@ == text@,
            forall|j: int|
                0 <= j < i && (#[trigger] texts(markers@)[j]).len() > 0 ==> !contains_part(
                    text@,
                    texts(markers@)[j],
                ),
    {
        let marker = markers[i].as_str();
        assert(texts(markers@)[i as int] == marker@);
        if !marker.is_empty() {
            proof {
                lemma_first_occurrence(text@, marker@, 0);
            }
            if find(&chars, &chars_of(marker), 0).is_some() {
                return true;
            }
        }
    }
    false
}

/// Whether one of the markers, other than an empty one, stands in the body.
pub fn body_contains_marker(body: &[u8], markers: &[String]) -> (found: bool)
    ensures
        found == marked(lossy_text(body@), texts(markers@)),
        valid_utf8(body@) ==> found == marked(decode_utf8(body@), texts(markers@)),
        ordinary(texts(markers@)) ==> found == marked_bytes(body@, texts(markers@)),
{
    if markers.len() == 0 {
        return false;
    }
    let text = from_utf8_lossy(body);
    text_contains_marker(text.as_str(), markers)
}

/// Status and header fields of an answer; its body is that of the upstream.
pub struct ResponseHead {
    pub status: u16,
    pub headers: HeaderMap,
}

/// An answer that is made here, in plain text.
#[derive(Debug)]
pub struct PlainReply {
    pub status: u16,
    pub text: String,
}

/// An answer to the client.
pub enum Answer {
    /// What the upstream sent.
    Relay(ResponseHead),
    /// What is said in its place.
    Plain(PlainReply),
}

/// `answer` passes on an answer of the upstream with this status and these fields; or it says
/// that none could be made of them, because the status is no status, or because there may be
/// more fields than a map holds.
pub open spec fn is_built(answer: Answer, status: u16, fields: Fields) -> bool {
    match answer {
        Answer::Relay(head) => {
            &&& is_status(status)
            &&& head.status == status
            &&& header_contents(head.headers) == returned(fields)
        },
        Answer::Plain(reply) => {
            &&& !is_status(status) || fields.dom().len() >= ROOM
            &&& reply.status == 500
            &&& reply.text@ == "failed to build response"@
        },
    }
}

/// The answer to the client from status and header fields of the upstream.
pub fn build_response(status: u16, headers: &HeaderMap) -> (answer: Answer)
    ensures
        is_built(answer, status, header_contents(*headers)),
        100 <= status <= 999 && header_contents(*headers).dom().len() < ROOM ==> answer is Relay,
        answer matches Answer::Relay(head) ==> head.status == status,
        answer matches Answer::Plain(reply) ==> reply.status == 500,
{
    match (status_code(status), response_headers(headers)) {
        (Some(status), Some(headers)) => Answer::Relay(ResponseHead { status, headers }),
        _ => Answer::Plain(
            PlainReply { status: 500, text: "failed to build response".to_string() },
        ),
    }
}

/// How one attempt ended.
pub enum Forward {
    /// The answer goes to the client.
    Pass(Answer),
    /// The key is exhausted; the upstream said so with this status.
    Exhausted { status: u16 },
}

/// What to do once status and header fields of an answer are there.
pub enum Next {
    /// The status says that the key is exhausted: the attempt has ended.
    Done(Forward),
    /// Look at the first piece of the stream.
    Peek,
    /// Read the whole body.
    Read,
}

/// What to do on an answer with this status and these fields.
pub open spec fn next_of(statuses: Seq<u16>, status: u16, fields: Fields) -> Next {
    if statuses.contains(status) {
        Next::Done(Forward::Exhausted { status })
    } else if event_stream(fields) {
        Next::Peek
    } else {
        Next::Read
    }
}

/// Decide by status and header fields of an answer.
pub fn judge_head(config: &Config, status: u16, headers: &HeaderMap) -> (next: Next)
    ensures
        next == next_of(config@.failover_statuses, status, header_contents(*headers)),
        next is Done <==> config.failover_statuses@.contains(status),
        next matches Next::Done(forward) ==> forward == (Forward::Exhausted { status }),
{
    for i in 0..config.failover_statuses.len()
        invariant
            forall|j: int| 0 <= j < i ==> config.failover_statuses@[j] != status,
    {
        if config.failover_statuses[i] == status {
            return Next::Done(Forward::Exhausted { status });
        }
    }
    if is_event_stream(headers) {
        Next::Peek
    } else {
        Next::Read
    }
}

/// The attempt ended with `exhausted` for a key that is, and else with the answer of the
/// upstream.
pub open spec fn ends(forward: Forward, exhausted: bool, status: u16, fields: Fields) -> bool {
    match forward {
        Forward::Exhausted { status: said } => exhausted && said == status,
        Forward::Pass(answer) => !exhausted && is_built(answer, status, fields),
    }
}

/// The whole body of an answer says that the key is exhausted.
pub open spec fn body_exhausted(markers: Seq<Seq<char>>, body: Seq<u8>) -> bool {
    body.len() <= MAX_BUFFER_FOR_MARKER && marked(lossy_text(body), markers)
}

/// The first piece of a stream, if there is one, says that the key is exhausted.
pub open spec fn stream_exhausted(markers: Seq<Seq<char>>, first: Option<Seq<u8>>) -> bool {
    match first {
        Some(chunk) => marked(lossy_text(chunk), markers),
        None => false,
    }
}

/// The bytes of a piece of a stream.
pub open spec fn chunk_bytes(first: Option<&[u8]>) -> Option<Seq<u8>> {
    match first {
        Some(chunk) => Some(chunk@),
        None => None,
    }
}

/// Decide by the whole body of an answer.
pub fn handle_buffered_response(
    config: &Config,
    status: u16,
    headers: &HeaderMap,
    body: &[u8],
) -> (forward: Forward)
    ensures
        ends(
            forward,
            body_exhausted(config@.exhaustion_markers, body@),
            status,
            header_contents(*headers),
        ),
        valid_utf8(body@) ==> (forward is Exhausted <==> body@.len() <= MAX_BUFFER_FOR_MARKER
            && marked(decode_utf8(body@), config@.exhaustion_markers)),
        ordinary(config@.exhaustion_markers) ==> (forward is Exhausted <==> body@.len()
            <= MAX_BUFFER_FOR_MARKER && marked_bytes(body@, config@.exhaustion_markers)),
        forward is Exhausted <==> body@.len() <= 256 * 1024 && marked(
            lossy_text(body@),
            config@.exhaustion_markers,
        ),
        forward matches Forward::Exhausted { status: said } ==> said == status,
        forward matches Forward::Pass(answer) ==> {
            &&& 100 <= status <= 999 && header_contents(*headers).dom().len() < ROOM
                ==> answer is Relay
            &&& answer matches Answer::Relay(head) ==> head.status == status && header_contents(
                head.headers,
            ) == returned(header_contents(*headers))
        },
{
    if body.len() <= MAX_BUFFER_FOR_MARKER && body_contains_marker(
        body,
        config.exhaustion_markers.as_slice(),
    ) {
        return Forward::Exhausted { status };
    }
    Forward::Pass(build_response(status, headers))
}

/// Decide by the first piece of a stream; an empty stream has none.
pub fn handle_stream_response(
    config: &Config,
    status: u16,
    headers: &HeaderMap,
    first: Option<&[u8]>,
) -> (forward: Forward)
    ensures
        ends(
            forward,
            stream_exhausted(config@.exhaustion_markers, chunk_bytes(first)),
            status,
            header_contents(*headers),
        ),
        first matches Some(chunk) ==> valid_utf8(chunk@) ==> (forward is Exhausted <==> marked(
            decode_utf8(chunk@),
            config@.exhaustion_markers,
        )),
        first matches Some(chunk) ==> ordinary(config@.exhaustion_markers) ==> (
        forward is Exhausted <==> marked_bytes(chunk@, config@.exhaustion_markers)),
        forward is Exhausted <==> first is Some && marked(
            lossy_text(first->Some_0@),
            config@.exhaustion_markers,
        ),
        forward matches Forward::Exhausted { status: said } ==> said == status,
        forward matches Forward::Pass(answer) ==> {
            &&& 100 <= status <= 999 && header_contents(*headers).dom().len() < ROOM
                ==> answer is Relay
            &&& answer matches Answer::Relay(head) ==> head.status == status && header_contents(
                head.headers,
            ) == returned(header_contents(*headers))
        },
{
    if let Some(chunk) = first {
        if body_contains_marker(chunk, config.exhaustion_markers.as_slice()) {
            return Forward::Exhausted { status };
        }
    }
    Forward::Pass(build_response(status, headers))
}

} // verus!
