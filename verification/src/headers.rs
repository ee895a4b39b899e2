//! Header fields: which of them travel on, and with which credentials.
//!
//! The fields stand in the `HeaderMap` of the `http` crate.  Its types and the functions of it
//! that are called here are specified below from their source; what is decided about them is
//! proved.

use crate::config::AuthHeader;
use crate::text::{contains_part, lower_char};
use crate::text::{contains, same_text};
use axum::http::header::{
    HeaderName, HeaderValue, InvalidHeaderName, InvalidHeaderValue, MaxSizeReached, ToStrError,
};
use axum::http::HeaderMap;
use vstd::prelude::*;
use vstd::utf8::encode_utf8;

verus! {

#[verifier::external_type_specification]
#[verifier::external_body]
#[verifier::reject_recursive_types(T)]
pub struct ExHeaderMap<T>(axum::http::HeaderMap<T>);

#[verifier::external_type_specification]
#[verifier::external_body]
pub struct ExHeaderName(axum::http::header::HeaderName);

#[verifier::external_type_specification]
#[verifier::external_body]
pub struct ExHeaderValue(axum::http::header::HeaderValue);

#[verifier::external_type_specification]
#[verifier::external_body]
pub struct ExInvalidHeaderName(axum::http::header::InvalidHeaderName);

#[verifier::external_type_specification]
#[verifier::external_body]
pub struct ExInvalidHeaderValue(axum::http::header::InvalidHeaderValue);

#[verifier::external_type_specification]
#[verifier::external_body]
pub struct ExToStrError(axum::http::header::ToStrError);

#[verifier::external_type_specification]
#[verifier::external_body]
pub struct ExMaxSizeReached(axum::http::header::MaxSizeReached);

/// Header fields: for each name its values, in the order in which they were added.
pub type Fields = Map<Seq<char>, Seq<Seq<u8>>>;

/// What a `HeaderMap` holds.
pub uninterp spec fn header_contents(map: HeaderMap) -> Map<Seq<char>, Seq<Seq<u8>>>;

/// The characters that a `HeaderName` holds.
pub uninterp spec fn name_text(name: HeaderName) -> Seq<char>;

/// The bytes that a `HeaderValue` holds.
pub uninterp spec fn value_bytes(value: HeaderValue) -> Seq<u8>;

/// No fields.
pub open spec fn no_fields() -> Fields {
    Map::empty()
}

/// The values of a name; none if there is no such field.
pub open spec fn values_of(fields: Fields, name: Seq<char>) -> Seq<Seq<u8>> {
    if fields.contains_key(name) {
        fields[name]
    } else {
        Seq::empty()
    }
}

/// The fields with one more value behind those of its name.
pub open spec fn appended(fields: Fields, name: Seq<char>, value: Seq<u8>) -> Fields {
    fields.insert(name, values_of(fields, name).push(value))
}

/// The fields that a list of names and values makes, added one after the other.
pub open spec fn gathered(entries: Seq<(&HeaderName, &HeaderValue)>) -> Fields
    decreases entries.len(),
{
    if entries.len() == 0 {
        no_fields()
    } else {
        appended(
            gathered(entries.drop_last()),
            name_text(*entries.last().0),
            value_bytes(*entries.last().1),
        )
    }
}

/// A `HeaderMap` with fewer names than this takes one more.
///
/// It refuses only where it would have to double a table of 32768 slots, and it doubles a table
/// only once there are names for a fifth of the slots.
pub const ROOM: usize = 6554;

/// A byte that a header value may hold.
pub open spec fn is_value_byte(b: u8) -> bool {
    (b >= 32 && b != 127) || b == 9
}

/// Bytes that make a header value.
pub open spec fn is_value(bytes: Seq<u8>) -> bool {
    forall|i: int| 0 <= i < bytes.len() ==> is_value_byte(#[trigger] bytes[i])
}

/// A byte of a header value that is text.
pub open spec fn is_visible_byte(b: u8) -> bool {
    (32 <= b < 127) || b == 9
}

/// Bytes of a header value that are text.
pub open spec fn is_visible(bytes: Seq<u8>) -> bool {
    forall|i: int| 0 <= i < bytes.len() ==> is_visible_byte(#[trigger] bytes[i])
}

/// ASCII bytes as text.
pub open spec fn ascii_text(bytes: Seq<u8>) -> Seq<char> {
    bytes.map_values(|b: u8| b as char)
}

/// A byte that may stand in a token: a letter, a digit, or one of ``!#$%&'*+-.^_`|~``.
pub open spec fn is_token_byte(b: u8) -> bool {
    ||| 0x30 <= b <= 0x39
    ||| 0x41 <= b <= 0x5a
    ||| 0x61 <= b <= 0x7a
    ||| b == 0x21
    ||| 0x23 <= b <= 0x27
    ||| b == 0x2a
    ||| b == 0x2b
    ||| b == 0x2d
    ||| b == 0x2e
    ||| b == 0x5e
    ||| b == 0x5f
    ||| b == 0x60
    ||| b == 0x7c
    ||| b == 0x7e
}

/// Bytes that make a header name.
pub open spec fn is_name(bytes: Seq<u8>) -> bool {
    &&& 1 <= bytes.len() <= 65535
    &&& forall|i: int| 0 <= i < bytes.len() ==> is_token_byte(#[trigger] bytes[i])
}

/// Text without the letters `A` to `Z`.
pub open spec fn is_lower(text: Seq<char>) -> bool {
    forall|i: int| 0 <= i < text.len() ==> !('A' <= #[trigger] text[i] <= 'Z')
}

/// `HeaderName::as_str` gives the characters of the name, which are never upper case letters.
pub assume_specification[ HeaderName::as_str ](name: &HeaderName) -> (text: &str)
    ensures
        text@ == name_text(*name),
        is_lower(text@),
;

/// `HeaderName::from_bytes` takes a token of up to 65535 bytes and brings it to lower case.
pub assume_specification[ HeaderName::from_bytes ](src: &[u8]) -> (result: Result<
    HeaderName,
    InvalidHeaderName,
>)
    ensures
        result is Ok <==> is_name(src@),
        result matches Ok(name) ==> name_text(name) == ascii_text(src@).map_values(
            |c: char| lower_char(c),
        ),
;

/// `HeaderName::from_static` takes a name in lower case as it is.  It panics on text that is no name.
pub assume_specification[ HeaderName::from_static ](src: &'static str) -> (name: HeaderName)
    requires
        is_name(encode_utf8(src@)),
        is_lower(src@),
    ensures
        name_text(name) == src@,
;

/// `HeaderValue::from_str` takes the bytes of a text without control characters.
pub assume_specification[ HeaderValue::from_str ](src: &str) -> (result: Result<
    HeaderValue,
    InvalidHeaderValue,
>)
    ensures
        result is Ok <==> is_value(encode_utf8(src@)),
        result matches Ok(value) ==> value_bytes(value) == encode_utf8(src@),
;

/// `HeaderValue::from_bytes` takes bytes without control characters.
pub assume_specification[ HeaderValue::from_bytes ](src: &[u8]) -> (result: Result<
    HeaderValue,
    InvalidHeaderValue,
>)
    ensures
        result is Ok <==> is_value(src@),
        result matches Ok(value) ==> value_bytes(value) == src@,
;

/// `HeaderValue::as_bytes` gives the bytes of the value.
pub assume_specification[ HeaderValue::as_bytes ](value: &HeaderValue) -> (bytes: &[u8])
    ensures
        bytes@ == value_bytes(*value),
;

/// `HeaderValue::to_str` gives the value as text where it is visible ASCII.
pub assume_specification[ HeaderValue::to_str ](value: &HeaderValue) -> (result: Result<
    &str,
    ToStrError,
>)
    ensures
        result is Ok <==> is_visible(value_bytes(*value)),
        result matches Ok(text) ==> text@ == ascii_text(value_bytes(*value)),
;

/// A clone of a `HeaderName` holds the same characters.
pub assume_specification[ <HeaderName as Clone>::clone ](name: &HeaderName) -> (copy: HeaderName)
    ensures
        name_text(copy) == name_text(*name),
;

/// A clone of a `HeaderValue` holds the same bytes.
pub assume_specification[ <HeaderValue as Clone>::clone ](value: &HeaderValue) -> (copy:
    HeaderValue)
    ensures
        value_bytes(copy) == value_bytes(*value),
;

/// `HeaderMap::new` makes an empty map.
#[verifier::external_body]
fn new_headers() -> (map: HeaderMap)
    ensures
        header_contents(map) == no_fields(),
{
    HeaderMap::new()
}

/// `HeaderMap::iter` gives each name with each of its values, the values of a name in their
/// order.  In which order the names come is left open.
#[verifier::external_body]
fn entries(map: &HeaderMap) -> (entries: Vec<(&HeaderName, &HeaderValue)>)
    ensures
        gathered(entries@) == header_contents(*map),
{
    map.iter().collect()
}

/// `HeaderMap::get` gives the first value of a name.
#[verifier::external_body]
fn first_value<'a>(map: &'a HeaderMap, name: &HeaderName) -> (value: Option<&'a HeaderValue>)
    ensures
        value is Some <==> header_contents(*map).contains_key(name_text(*name)),
        value matches Some(v) ==> value_bytes(*v) == header_contents(*map)[name_text(*name)][0],
{
    map.get(name)
}

/// `HeaderMap::try_insert` puts one value in the place of all those of its name.  It fails, and
/// leaves the fields as they are, only on a map that may have grown as far as it can.
#[verifier::external_body]
fn try_insert(map: &mut HeaderMap, name: HeaderName, value: HeaderValue) -> (result: Result<
    (),
    MaxSizeReached,
>)
    ensures
        header_contents(*old(map)).dom().len() < ROOM ==> result is Ok,
        result is Ok ==> header_contents(*final(map)) == header_contents(*old(map)).insert(
            name_text(name),
            seq![value_bytes(value)],
        ),
        result is Err ==> header_contents(*final(map)) == header_contents(*old(map)),
{
    map.try_insert(name, value).map(|_| ())
}

/// `HeaderMap::try_append` puts one value behind those of its name.  It fails, and leaves the
/// fields as they are, only on a map that may have grown as far as it can.
#[verifier::external_body]
fn try_append(map: &mut HeaderMap, name: HeaderName, value: HeaderValue) -> (result: Result<
    (),
    MaxSizeReached,
>)
    ensures
        header_contents(*old(map)).dom().len() < ROOM ==> result is Ok,
        result is Ok ==> header_contents(*final(map)) == appended(
            header_contents(*old(map)),
            name_text(name),
            value_bytes(value),
        ),
        result is Err ==> header_contents(*final(map)) == header_contents(*old(map)),
{
    map.try_append(name, value).map(|_| ())
}

/// A header that is passed on neither to the upstream nor to the client: it belongs to one
/// connection, or is set anew for each.
pub open spec fn hop_by_hop(name: Seq<char>) -> bool {
    ||| name == "connection"@
    ||| name == "keep-alive"@
    ||| name == "proxy-authenticate"@
    ||| name == "proxy-authorization"@
    ||| name == "te"@
    ||| name == "trailer"@
    ||| name == "transfer-encoding"@
    ||| name == "upgrade"@
    ||| name == "host"@
    ||| name == "content-length"@
}

/// A header that carries credentials.
pub open spec fn credential(name: Seq<char>) -> bool {
    ||| name == "x-api-key"@
    ||| name == "authorization"@
}

/// A header of an incoming request that travels on to the upstream.
pub open spec fn travels(name: Seq<char>) -> bool {
    !hop_by_hop(name) && !credential(name)
}

/// The fields that travel on; of a name with several values the last.
pub open spec fn travelling(fields: Fields) -> Fields {
    Map::new(
        |name: Seq<char>| fields.contains_key(name) && travels(name),
        |name: Seq<char>| seq![fields[name].last()],
    )
}

/// The fields of the request to the upstream: those that travel on, and the key.
pub open spec fn forwarded(fields: Fields, auth: AuthHeader, key: Seq<char>) -> Fields {
    travelling(fields).insert(auth.name(), seq![encode_utf8(auth.value(key))])
}

/// Whether a header, by its name in lower case, belongs to one connection.
pub fn is_hop_by_hop(name: &str) -> (yes: bool)
    ensures
        yes == hop_by_hop(name@),
{
    same_text(name, "connection") || same_text(name, "keep-alive") || same_text(
        name,
        "proxy-authenticate",
    ) || same_text(name, "proxy-authorization") || same_text(name, "te") || same_text(
        name,
        "trailer",
    ) || same_text(name, "transfer-encoding") || same_text(name, "upgrade") || same_text(
        name,
        "host",
    ) || same_text(name, "content-length")
}

/// Why no header fields can be made for a request.
pub enum HeaderError {
    /// The key cannot stand in a header.
    AuthValue(InvalidHeaderValue),
    /// There are too many fields.
    TooMany,
}

proof fn lemma_gathered_finite(entries: Seq<(&HeaderName, &HeaderValue)>)
    ensures
        gathered(entries).dom().finite(),
    decreases entries.len(),
{
    if entries.len() > 0 {
        lemma_gathered_finite(entries.drop_last());
    }
}

/// The first entries make no more names than all of them.
proof fn lemma_gathered_prefix(entries: Seq<(&HeaderName, &HeaderValue)>, count: int)
    requires
        0 <= count <= entries.len(),
    ensures
        gathered(entries.take(count)).dom().subset_of(gathered(entries).dom()),
    decreases entries.len() - count,
{
    if count < entries.len() {
        lemma_gathered_prefix(entries, count + 1);
        assert(entries.take(count + 1).drop_last() =~= entries.take(count));
    } else {
        assert(entries.take(count) =~= entries);
    }
}

/// Fields whose names are all among those of the entries are no more of them.
proof fn lemma_room(entries: Seq<(&HeaderName, &HeaderValue)>, fields: Fields)
    requires
        fields.dom().subset_of(gathered(entries).dom()),
    ensures
        fields.dom().len() <= gathered(entries).dom().len(),
{
    lemma_gathered_finite(entries);
    vstd::set_lib::lemma_len_subset(fields.dom(), gathered(entries).dom());
}

/// The names that credentials travel under are header names.
proof fn lemma_auth_name(auth: AuthHeader)
    ensures
        is_name(encode_utf8(auth.name())),
        is_lower(auth.name()),
{
    reveal_strlit("x-api-key");
    reveal_strlit("authorization");
    vstd::utf8::is_ascii_chars_encode_utf8(auth.name());
}

/// The header fields of the request to the upstream.
///
/// Those of the incoming request travel on, one value for each name, except for hop-by-hop
/// headers and credentials.  The key takes the place of the credentials.
pub fn request_headers(incoming: &HeaderMap, auth: AuthHeader, key: &str) -> (result: Result<
    HeaderMap,
    HeaderError,
>)
    ensures
        match result {
            Ok(headers) => {
                &&& is_value(encode_utf8(auth.value(key@)))
                &&& header_contents(headers) == forwarded(header_contents(*incoming), auth, key@)
            },
            Err(HeaderError::AuthValue(_)) => !is_value(encode_utf8(auth.value(key@))),
            Err(HeaderError::TooMany) => header_contents(*incoming).dom().len() >= ROOM,
        },
{
    let mut headers = new_headers();
    let list = entries(incoming);
    assert(header_contents(headers) =~= travelling(gathered(list@.take(0))));
    for i in 0..list.len()
        invariant
            gathered(list@) == header_contents(*incoming),
            header_contents(headers) == travelling(gathered(list@.take(i as int))),
    {
        let name = list[i].0.as_str();
        assert(list@.take(i + 1).drop_last() =~= list@.take(i as int));
        if !is_hop_by_hop(name) && !same_text(name, "x-api-key") && !same_text(
            name,
            "authorization",
        ) {
            proof {
                lemma_gathered_prefix(list@, i as int);
                lemma_room(list@, header_contents(headers));
            }
            let value = list[i].1.clone();
            if try_insert(&mut headers, list[i].0.clone(), value).is_err() {
                return Err(HeaderError::TooMany);
            }
        }
        assert(header_contents(headers) =~= travelling(gathered(list@.take(i + 1))));
    }
    assert(list@.take(list.len() as int) =~= list@);
    proof {
        lemma_auth_name(auth);
        lemma_room(list@, header_contents(headers));
    }
    let name = HeaderName::from_static(auth.header_name());
    match HeaderValue::from_str(auth.header_value(key).as_str()) {
        Err(error) => Err(HeaderError::AuthValue(error)),
        Ok(value) => match try_insert(&mut headers, name, value) {
            Err(_) => Err(HeaderError::TooMany),
            Ok(_) => Ok(headers),
        },
    }
}

/// A header of an answer that travels back to the client.
pub open spec fn travels_back(name: Seq<char>) -> bool {
    !hop_by_hop(name) && is_name(encode_utf8(name))
}

/// Those of some values that make header values.
pub open spec fn sound(values: Seq<Seq<u8>>) -> Seq<Seq<u8>> {
    values.filter(|value: Seq<u8>| is_value(value))
}

/// The fields of an answer that travel back to the client, with all their values.
pub open spec fn returned(fields: Fields) -> Fields {
    Map::new(
        |name: Seq<char>|
            fields.contains_key(name) && travels_back(name) && sound(fields[name]).len() > 0,
        |name: Seq<char>| sound(fields[name]),
    )
}

/// Text whose bytes are all ASCII has one byte for each character.
proof fn lemma_ascii_text(text: Seq<char>)
    requires
        forall|i: int|
            0 <= i < encode_utf8(text).len() ==> (#[trigger] encode_utf8(text)[i]) < 128,
    ensures
        ascii_text(encode_utf8(text)) == text,
{
    let bytes = encode_utf8(text);
    let plain = ascii_text(bytes);
    assert(vstd::utf8::is_ascii_chars(plain));
    vstd::utf8::is_ascii_chars_encode_utf8(plain);
    assert(encode_utf8(plain) =~= bytes);
    vstd::utf8::encode_utf8_decode_utf8(plain);
    vstd::utf8::encode_utf8_decode_utf8(text);
}

/// A name in lower case is its own name when it is made anew from its bytes.
proof fn lemma_name_again(text: Seq<char>)
    requires
        is_name(encode_utf8(text)),
        is_lower(text),
    ensures
        ascii_text(encode_utf8(text)).map_values(|c: char| lower_char(c)) == text,
{
    lemma_ascii_text(text);
    assert(text.map_values(|c: char| lower_char(c)) =~= text);
}

/// One more value travels back behind the others of its name, if the name does and the bytes
/// make a header value.
proof fn lemma_returned_appended(fields: Fields, name: Seq<char>, value: Seq<u8>)
    ensures
        returned(appended(fields, name, value)) == if travels_back(name) && is_value(value) {
            appended(returned(fields), name, value)
        } else {
            returned(fields)
        },
{
    reveal(Seq::filter);
    let values = values_of(fields, name);
    assert(values.push(value).drop_last() =~= values);
    assert(sound(values.push(value)) == if is_value(value) {
        sound(values).push(value)
    } else {
        sound(values)
    });
    let after = returned(appended(fields, name, value));
    if travels_back(name) && is_value(value) {
        assert(values_of(returned(fields), name) =~= sound(values));
        assert(after =~= appended(returned(fields), name, value));
    } else {
        assert(after =~= returned(fields));
    }
}

/// The header fields of the answer to the client: those of the upstream, except for hop-by-hop
/// headers.
///
/// `None` comes only where there are more fields than a map is sure to hold.
pub fn response_headers(upstream: &HeaderMap) -> (result: Option<HeaderMap>)
    ensures
        match result {
            Some(headers) => header_contents(headers) == returned(header_contents(*upstream)),
            None => header_contents(*upstream).dom().len() >= ROOM,
        },
{
    let mut headers = new_headers();
    let list = entries(upstream);
    assert(header_contents(headers) =~= returned(gathered(list@.take(0))));
    for i in 0..list.len()
        invariant
            gathered(list@) == header_contents(*upstream),
            header_contents(headers) == returned(gathered(list@.take(i as int))),
    {
        let name = list[i].0.as_str();
        let value = list[i].1.as_bytes();
        proof {
            assert(list@.take(i + 1).drop_last() =~= list@.take(i as int));
            lemma_returned_appended(gathered(list@.take(i as int)), name@, value@);
        }
        if !is_hop_by_hop(name) {
            match (HeaderName::from_bytes(name.as_bytes()), HeaderValue::from_bytes(value)) {
                (Ok(again), Ok(copy)) => {
                    proof {
                        lemma_name_again(name@);
                        lemma_gathered_prefix(list@, i as int);
                        lemma_room(list@, header_contents(headers));
                    }
                    if try_append(&mut headers, again, copy).is_err() {
                        return None;
                    }
                },
                _ => {},
            }
        }
    }
    assert(list@.take(list.len() as int) =~= list@);
    Some(headers)
}

/// The answer is a stream of events, by its content type.
pub open spec fn event_stream(fields: Fields) -> bool {
    &&& fields.contains_key("content-type"@)
    &&& is_visible(fields["content-type"@][0])
    &&& contains_part(ascii_text(fields["content-type"@][0]), "text/event-stream"@)
}

/// Whether an answer is a stream of events, by the first value of its content type.
pub fn is_event_stream(headers: &HeaderMap) -> (yes: bool)
    ensures
        yes == event_stream(header_contents(*headers)),
{
    proof {
        reveal_strlit("content-type");
        vstd::utf8::is_ascii_chars_encode_utf8("content-type"@);
    }
    let name = HeaderName::from_static("content-type");
    match first_value(headers, &name) {
        None => false,
        Some(value) => match value.to_str() {
            Err(_) => false,
            Ok(text) => contains(text, "text/event-stream"),
        },
    }
}

/// The upstream sees the key, and no other credentials: of the headers that carry credentials only
/// the configured one is there, with the key as its one value; no hop-by-hop header is there; and
/// every other header of the request is there, with the last of its values.
pub proof fn law_key_replaces_credentials(fields: Fields, auth: AuthHeader, key: Seq<char>)
    ensures
        ({
            let out = forwarded(fields, auth, key);
            &&& out.contains_key(auth.name())
            &&& out[auth.name()] == seq![encode_utf8(auth.value(key))]
            &&& forall|name: Seq<char>|
                #![trigger out.contains_key(name)]
                out.contains_key(name) ==> {
                    &&& !hop_by_hop(name)
                    &&& credential(name) ==> name == auth.name()
                    &&& name != auth.name() ==> fields.contains_key(name) && out[name]
                        == seq![fields[name].last()]
                }
            &&& forall|name: Seq<char>|
                #![trigger out.contains_key(name)]
                fields.contains_key(name) && travels(name) ==> out.contains_key(name)
                    && out[name] == seq![fields[name].last()]
        }),
{
    reveal_strlit("x-api-key");
    reveal_strlit("authorization");
    reveal_strlit("connection");
    reveal_strlit("keep-alive");
    reveal_strlit("proxy-authenticate");
    reveal_strlit("proxy-authorization");
    reveal_strlit("te");
    reveal_strlit("trailer");
    reveal_strlit("transfer-encoding");
    reveal_strlit("upgrade");
    reveal_strlit("host");
    reveal_strlit("content-length");
    let name = auth.name();
    assert(name[0] == 'x' || name[0] == 'a');
    assert(!hop_by_hop(name));
}

/// What a client sends as credentials, or about its own connection, changes nothing of what the
/// upstream sees.
pub proof fn law_client_credentials_do_not_matter(
    fields: Fields,
    other: Fields,
    auth: AuthHeader,
    key: Seq<char>,
)
    requires
        forall|name: Seq<char>|
            #![trigger travels(name)]
            travels(name) ==> fields.contains_key(name) == other.contains_key(name)
                && fields[name] == other[name],
    ensures
        forwarded(fields, auth, key) == forwarded(other, auth, key),
{
    assert(travelling(fields) =~= travelling(other));
}

/// A header of the upstream whose values are all header values comes back with all of them, in
/// their order, if it is one that travels back; nothing else comes back.
pub proof fn law_answers_keep_their_headers(fields: Fields, name: Seq<char>)
    requires
        fields.contains_key(name),
        fields[name].len() > 0,
        forall|i: int| 0 <= i < fields[name].len() ==> is_value(#[trigger] fields[name][i]),
    ensures
        returned(fields).contains_key(name) <==> travels_back(name),
        travels_back(name) ==> returned(fields)[name] == fields[name],
        returned(fields).dom().subset_of(fields.dom()),
{
    lemma_all_sound(fields[name]);
}

/// No hop-by-hop header is passed on, to the upstream or to the client.
pub proof fn law_hop_by_hop_headers_stop_here(
    fields: Fields,
    auth: AuthHeader,
    key: Seq<char>,
    name: Seq<char>,
)
    requires
        hop_by_hop(name),
    ensures
        !forwarded(fields, auth, key).contains_key(name),
        !returned(fields).contains_key(name),
{
    law_key_replaces_credentials(fields, auth, key);
}

proof fn lemma_all_sound(values: Seq<Seq<u8>>)
    requires
        forall|i: int| 0 <= i < values.len() ==> is_value(#[trigger] values[i]),
    ensures
        sound(values) == values,
    decreases values.len(),
{
    reveal(Seq::filter);
    if values.len() > 0 {
        let front = values.drop_last();
        assert(forall|i: int| 0 <= i < front.len() ==> #[trigger] front[i] == values[i]);
        lemma_all_sound(front);
        assert(is_value(values[values.len() - 1]));
        assert(front.push(values.last()) =~= values);
    }
}

} // verus!
