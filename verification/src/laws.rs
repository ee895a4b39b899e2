//! What the operations are for, stated of their inputs and results alone.
//!
//! The names, bytes, characters and numbers that a rule speaks of are written out here, so that
//! each law says what holds without the definition that it is about.

use crate::config::{
    key_of, keys_of, meaning, names_of, AuthHeader, Config, ConfigError, ConfigFault, RawConfig,
    RawSettings,
};
use crate::config::{lemma_first_fault, lemma_keys_clean};
use crate::exchange::{
    bytes_at, contains_bytes, is_built, is_status, marked, marked_bytes, next_of, ordinary, Answer,
    Forward, Next,
};
use crate::exchange::{body_exhausted, ends, lossy_text, stream_exhausted};
use crate::expand::{
    closing, expanded, expanded_from, names, names_from, opening, ExpandError, ExpandFault,
};
use crate::headers::{
    ascii_text, event_stream, forwarded, header_contents, hop_by_hop, is_name,
    is_token_byte, is_value, is_visible, returned, sound, Fields,
};
use crate::pool::{after_all, sum, Event, Pool};
use crate::proxy::{is_exhausted_reply, is_method, target_url, ExhaustedReply, ProxyError, Try};
use crate::text::{
    ascii_lower, contains_part, decimal, first_occurrence, is_white_space, lemma_first_occurrence,
    occurs_at, strip_end, strip_start, texts, trimmed, without_end_slashes,
};
use vstd::prelude::*;
use vstd::utf8::encode_utf8;

verus! {

// Text

/// A text contains a part exactly when it is something, then the part, then something.
pub proof fn law_containing_is_standing_between(text: Seq<char>, part: Seq<char>)
    ensures
        contains_part(text, part) <==> exists|front: Seq<char>, back: Seq<char>|
            text == #[trigger] (front + part + back),
{
    if contains_part(text, part) {
        let at = choose|at: int| occurs_at(text, part, at);
        let front = text.subrange(0, at);
        let back = text.subrange(at + part.len(), text.len() as int);
        assert(text =~= front + part + back) by {
            assert forall|i: int| 0 <= i < text.len() implies text[i] == (front + part + back)[i] by {
                if at <= i < at + part.len() {
                    assert(text.subrange(at, at + part.len())[i - at] == part[i - at]);
                }
            }
        }
    }
    if exists|front: Seq<char>, back: Seq<char>| text == #[trigger] (front + part + back) {
        let (front, back) = choose|front: Seq<char>, back: Seq<char>|
            text == #[trigger] (front + part + back);
        assert(text.subrange(front.len() as int, (front.len() + part.len()) as int) =~= part);
        assert(occurs_at(text, part, front.len() as int));
    }
}

/// White space is one of these characters.
pub proof fn law_white_space(c: char)
    ensures
        is_white_space(c) <==> (c == '\t' || c == '\n' || c == '\u{b}' || c == '\u{c}' || c == '\r'
            || c == ' ' || c == '\u{85}' || c == '\u{a0}' || c == '\u{1680}' || ('\u{2000}' <= c
            && c <= '\u{200a}') || c == '\u{2028}' || c == '\u{2029}' || c == '\u{202f}' || c
            == '\u{205f}' || c == '\u{3000}'),
{
}

/// Trimming drops white space at both ends, all of it, and nothing else.
pub proof fn law_trimming(text: Seq<char>)
    ensures
        exists|front: Seq<char>, back: Seq<char>|
            {
                &&& text == #[trigger] (front + trimmed(text) + back)
                &&& forall|i: int| 0 <= i < front.len() ==> is_white_space(#[trigger] front[i])
                &&& forall|i: int| 0 <= i < back.len() ==> is_white_space(#[trigger] back[i])
            },
        trimmed(text).len() > 0 ==> {
            &&& !is_white_space(trimmed(text).first())
            &&& !is_white_space(trimmed(text).last())
        },
{
    let drop = |c: char| is_white_space(c);
    let middle = strip_start(text, drop);
    let front = lemma_strip_start_parts(text, drop);
    let back = lemma_strip_end_parts(middle, drop);
    assert(text =~= front + trimmed(text) + back);
    assert(forall|i: int| 0 <= i < front.len() ==> drop(#[trigger] front[i]));
    assert(forall|i: int| 0 <= i < back.len() ==> drop(#[trigger] back[i]));
    if trimmed(text).len() > 0 {
        assert(!drop(trimmed(text).last()));
        assert(trimmed(text).first() == middle.first());
        assert(!drop(middle.first()));
    }
}

/// Dropping slashes at the end drops all of them, and nothing else.
pub proof fn law_dropping_end_slashes(text: Seq<char>)
    ensures
        exists|back: Seq<char>|
            {
                &&& text == #[trigger] (without_end_slashes(text) + back)
                &&& forall|i: int| 0 <= i < back.len() ==> #[trigger] back[i] == '/'
            },
        without_end_slashes(text).len() > 0 ==> without_end_slashes(text).last() != '/',
{
    let drop = |c: char| c == '/';
    let back = lemma_strip_end_parts(text, drop);
    assert(forall|i: int| 0 <= i < back.len() ==> drop(#[trigger] back[i]));
    assert(text == without_end_slashes(text) + back);
    if without_end_slashes(text).len() > 0 {
        assert(!drop(without_end_slashes(text).last()));
    }
}

proof fn lemma_strip_start_parts(text: Seq<char>, drop: spec_fn(char) -> bool) -> (front: Seq<char>)
    ensures
        text == front + strip_start(text, drop),
        forall|i: int| 0 <= i < front.len() ==> drop(#[trigger] front[i]),
        strip_start(text, drop).len() > 0 ==> !drop(strip_start(text, drop).first()),
    decreases text.len(),
{
    if text.len() > 0 && drop(text.first()) {
        let rest = lemma_strip_start_parts(text.drop_first(), drop);
        let front = seq![text.first()] + rest;
        assert(text =~= front + strip_start(text, drop)) by {
            assert(text =~= seq![text.first()] + text.drop_first());
        }
        assert forall|i: int| 0 <= i < front.len() implies drop(#[trigger] front[i]) by {
            if i > 0 {
                assert(front[i] == rest[i - 1]);
            }
        }
        front
    } else {
        assert(text =~= Seq::<char>::empty() + text);
        Seq::empty()
    }
}

proof fn lemma_strip_end_parts(text: Seq<char>, drop: spec_fn(char) -> bool) -> (back: Seq<char>)
    ensures
        text == strip_end(text, drop) + back,
        forall|i: int| 0 <= i < back.len() ==> drop(#[trigger] back[i]),
        strip_end(text, drop).len() > 0 ==> {
            &&& !drop(strip_end(text, drop).last())
            &&& strip_end(text, drop).first() == text.first()
        },
    decreases text.len(),
{
    if text.len() > 0 && drop(text.last()) {
        let rest = lemma_strip_end_parts(text.drop_last(), drop);
        let back = rest.push(text.last());
        assert(text =~= strip_end(text, drop) + back) by {
            assert(text =~= text.drop_last().push(text.last()));
        }
        assert forall|i: int| 0 <= i < back.len() implies drop(#[trigger] back[i]) by {
            if i < rest.len() {
                assert(back[i] == rest[i]);
            }
        }
        back
    } else {
        assert(text =~= text + Seq::<char>::empty());
        Seq::empty()
    }
}

/// Lower case changes the letters `A` to `Z`, each to the letter 32 places on, and nothing else.
pub proof fn law_lower_case(text: Seq<char>)
    ensures
        ascii_lower(text).len() == text.len(),
        forall|i: int|
            #![trigger ascii_lower(text)[i]]
            0 <= i < text.len() ==> {
                &&& 'A' <= text[i] <= 'Z' ==> ascii_lower(text)[i] as u32 == text[i] as u32 + 32
                &&& !('A' <= text[i] <= 'Z') ==> ascii_lower(text)[i] == text[i]
            },
{
}

/// The number that decimal digits stand for.
pub open spec fn number(digits: Seq<char>) -> nat
    decreases digits.len(),
{
    if digits.len() == 0 {
        0
    } else {
        number(digits.drop_last()) * 10 + (digits.last() as u32 - '0' as u32) as nat
    }
}

/// A number in decimal is made of digits that stand for it, without a leading zero.
pub proof fn law_decimal(n: nat)
    ensures
        number(decimal(n)) == n,
        decimal(n).len() >= 1,
        forall|i: int| 0 <= i < decimal(n).len() ==> '0' <= #[trigger] decimal(n)[i] <= '9',
        decimal(n).len() > 1 ==> decimal(n).first() != '0',
        n > 0 ==> decimal(n).first() != '0',
    decreases n,
{
    if n < 10 {
        assert(decimal(n).drop_last() =~= Seq::<char>::empty());
        assert(number(Seq::<char>::empty()) == 0);
    } else {
        law_decimal(n / 10);
        assert(decimal(n).drop_last() =~= decimal(n / 10));
    }
}

/// The texts of some strings are their texts, one by one.
pub proof fn law_texts(strings: Seq<String>)
    ensures
        texts(strings).len() == strings.len(),
        forall|i: int| 0 <= i < strings.len() ==> #[trigger] texts(strings)[i] == strings[i]@,
{
}

// Counters and the ring

/// A sum of counters takes each of them once.
pub proof fn law_sum(counts: Seq<u64>, count: u64)
    ensures
        sum(Seq::empty()) == 0,
        sum(counts.push(count)) == sum(counts) + count,
{
    assert(counts.push(count).drop_last() =~= counts);
}

/// A ring that is made starts with its first key and with nothing counted.
pub proof fn law_fresh_ring(keys: Seq<Seq<char>>)
    ensures
        ({
            let pool = Pool::fresh(keys);
            &&& pool.keys == keys
            &&& pool.active == 0
            &&& pool.requests.len() == keys.len() == pool.failovers.len()
            &&& forall|i: int| 0 <= i < keys.len() ==> #[trigger] pool.requests[i] == 0
            &&& forall|i: int| 0 <= i < keys.len() ==> #[trigger] pool.failovers[i] == 0
            &&& pool.requests_total == 0
            &&& pool.failovers_total == 0
        }),
{
}

/// In a well-formed ring with keys the active position is that of a key, each key has its two
/// counters, and each total is the sum of its counters modulo 2^64.
pub proof fn law_well_formed_ring(pool: Pool)
    requires
        pool.wf(),
    ensures
        pool.keys.len() > 0 ==> 0 <= pool.active < pool.keys.len(),
        pool.requests.len() == pool.keys.len() == pool.failovers.len(),
        pool.requests_total as int == sum(pool.requests) as int % 0x1_0000_0000_0000_0000,
        pool.failovers_total as int == sum(pool.failovers) as int % 0x1_0000_0000_0000_0000,
{
}

/// Counting a request adds one, modulo 2^64, to the counter of its key and to the total, and
/// changes nothing else.
pub proof fn law_counting_a_request(pool: Pool, index: int)
    requires
        pool.wf(),
        0 <= index < pool.keys.len(),
    ensures
        ({
            let after = pool.recorded(index);
            &&& after.requests.len() == pool.requests.len()
            &&& after.requests[index] as int == (pool.requests[index] + 1)
                % 0x1_0000_0000_0000_0000
            &&& forall|i: int|
                0 <= i < pool.keys.len() && i != index ==> #[trigger] after.requests[i]
                    == pool.requests[i]
            &&& after.requests_total as int == (pool.requests_total + 1) % 0x1_0000_0000_0000_0000
            &&& after.keys == pool.keys
            &&& after.active == pool.active
            &&& after.failovers == pool.failovers
            &&& after.failovers_total == pool.failovers_total
        }),
{
}

/// A refusal of the active key moves the ring to the next position, from the last one to the
/// first, and adds one, modulo 2^64, to the failovers of that key and to the total.  A refusal of
/// any other key changes nothing.
pub proof fn law_refusal(pool: Pool, from: int)
    requires
        pool.wf(),
        pool.keys.len() > 0,
        0 <= from,
    ensures
        ({
            let after = pool.rotated(from);
            if from == pool.active {
                &&& after.active == if from + 1 == pool.keys.len() {
                    0
                } else {
                    from + 1
                }
                &&& after.failovers.len() == pool.failovers.len()
                &&& after.failovers[from] as int == (pool.failovers[from] + 1)
                    % 0x1_0000_0000_0000_0000
                &&& forall|i: int|
                    0 <= i < pool.keys.len() && i != from ==> #[trigger] after.failovers[i]
                        == pool.failovers[i]
                &&& after.failovers_total as int == (pool.failovers_total + 1)
                    % 0x1_0000_0000_0000_0000
                &&& after.keys == pool.keys
                &&& after.requests == pool.requests
                &&& after.requests_total == pool.requests_total
            } else {
                after == pool
            }
        }),
{
    if from == pool.active {
        let n = pool.keys.len() as int;
        if from + 1 == n {
            vstd::arithmetic::div_mod::lemma_mod_self_0(n);
        } else {
            vstd::arithmetic::div_mod::lemma_small_mod((from + 1) as nat, n as nat);
        }
    }
}

/// Events happen one after the other, each as the operation that it stands for.
pub proof fn law_events_happen_in_order(pool: Pool, events: Seq<Event>, event: Event)
    ensures
        after_all(pool, Seq::empty()) == pool,
        ({
            let before = after_all(pool, events);
            after_all(pool, events.push(event)) == match event {
                Event::Sent(index) => before.recorded(index),
                Event::Refused(from) => before.rotated(from),
            }
        }),
{
    assert(events.push(event).drop_last() =~= events);
}

// The attempts of a request

/// A request starts with the active key, and a ring with `n` keys gives it `n` attempts.
pub proof fn law_first_attempt(pool: Pool)
    requires
        pool.wf(),
        pool.keys.len() > 0,
    ensures
        Try::first(pool).key_index == pool.active,
        Try::first(pool).attempt == 1,
        Try::first(pool).is_last(pool) <==> pool.keys.len() == 1,
{
}

/// After a refusal the next attempt takes the key that the ring is at then: the key behind the
/// refused one where that was still active, and the active key where the ring had moved already.
pub proof fn law_retry_takes_the_active_key(attempt: Try, pool: Pool)
    requires
        pool.wf(),
        attempt.fits(pool),
    ensures
        attempt.again(pool).key_index == pool.rotated(attempt.key_index).active,
        pool.active != attempt.key_index ==> attempt.again(pool).key_index == pool.active,
        pool.active == attempt.key_index ==> attempt.again(pool).key_index == if pool.active + 1
            == pool.keys.len() {
            0
        } else {
            pool.active + 1
        },
        attempt.again(pool).attempt == attempt.attempt + 1,
        attempt.is_last(pool) <==> attempt.attempt == pool.keys.len(),
        0 <= attempt.key_index < pool.keys.len(),
{
    law_refusal(pool, attempt.key_index);
}

/// Two requests that are refused one after the other, with nothing in between, go on with the
/// same key if they were refused on the same one and there is more than one key.
pub proof fn law_refused_together_go_on_together(one: Try, two: Try, pool: Pool)
    requires
        pool.wf(),
        pool.keys.len() > 1,
        one.fits(pool),
        two.fits(pool),
        one.key_index == two.key_index,
    ensures
        two.again(pool.rotated(one.key_index)).key_index == one.again(pool).key_index,
        pool.rotated(one.key_index).rotated(two.key_index) == pool.rotated(one.key_index),
{
    law_refusal(pool, one.key_index);
}

// Header fields

/// These ten names are hop-by-hop, and no others.
pub proof fn law_hop_by_hop_names(name: Seq<char>)
    ensures
        hop_by_hop(name) <==> (name == "connection"@ || name == "keep-alive"@ || name
            == "proxy-authenticate"@ || name == "proxy-authorization"@ || name == "te"@ || name
            == "trailer"@ || name == "transfer-encoding"@ || name == "upgrade"@ || name == "host"@
            || name == "content-length"@),
{
}

/// The upstream gets every field of the request under none of these twelve names, with the last
/// of its values; the configured one of `x-api-key` and `authorization`, with the key; and
/// nothing else.
pub proof fn law_what_the_upstream_gets(
    fields: Fields,
    auth: AuthHeader,
    key: Seq<char>,
    name: Seq<char>,
)
    ensures
        ({
            let out = forwarded(fields, auth, key);
            let own = match auth {
                AuthHeader::XApiKey => "x-api-key"@,
                AuthHeader::Authorization => "authorization"@,
            };
            let credentials = match auth {
                AuthHeader::XApiKey => key,
                AuthHeader::Authorization => "Bearer "@ + key,
            };
            let barred = name == "connection"@ || name == "keep-alive"@ || name
                == "proxy-authenticate"@ || name == "proxy-authorization"@ || name == "te"@ || name
                == "trailer"@ || name == "transfer-encoding"@ || name == "upgrade"@ || name
                == "host"@ || name == "content-length"@ || name == "x-api-key"@ || name
                == "authorization"@;
            if name == own {
                out.contains_key(name) && out[name] == seq![encode_utf8(credentials)]
            } else if fields.contains_key(name) && !barred {
                out.contains_key(name) && out[name] == seq![fields[name].last()]
            } else {
                !out.contains_key(name)
            }
        }),
{
}

/// A field under one of these ten names, or under a name that is no header name, does not come
/// back to the client.  Any other comes back with those of its values that are header values, if
/// there are any, and nothing else comes back.
pub proof fn law_what_the_client_gets(fields: Fields, name: Seq<char>)
    ensures
        ({
            let out = returned(fields);
            let barred = name == "connection"@ || name == "keep-alive"@ || name
                == "proxy-authenticate"@ || name == "proxy-authorization"@ || name == "te"@ || name
                == "trailer"@ || name == "transfer-encoding"@ || name == "upgrade"@ || name
                == "host"@ || name == "content-length"@;
            if fields.contains_key(name) && !barred && is_name(encode_utf8(name)) && sound(
                fields[name],
            ).len() > 0 {
                out.contains_key(name) && out[name] == sound(fields[name])
            } else {
                !out.contains_key(name)
            }
        }),
{
}

/// Of some values, those stay, in their order, that hold no control character but the tab.
pub proof fn law_sound_values(values: Seq<Seq<u8>>, value: Seq<u8>)
    ensures
        sound(Seq::empty()) == Seq::<Seq<u8>>::empty(),
        sound(values.push(value)) == if forall|i: int|
            0 <= i < value.len() ==> (#[trigger] value[i] >= 32 && value[i] != 127) || value[i]
                == 9 {
            sound(values).push(value)
        } else {
            sound(values)
        },
{
    reveal(Seq::filter);
    assert(values.push(value).drop_last() =~= values);
    if forall|i: int|
        0 <= i < value.len() ==> (#[trigger] value[i] >= 32 && value[i] != 127) || value[i] == 9 {
        assert(is_value(value));
    } else {
        let i = choose|i: int|
            0 <= i < value.len() && !((#[trigger] value[i] >= 32 && value[i] != 127) || value[i]
                == 9);
        assert(!is_value(value));
    }
}

/// Bytes make a header value exactly when none is a control character, but for the tab.
pub proof fn law_header_values(bytes: Seq<u8>)
    ensures
        is_value(bytes) <==> forall|i: int|
            0 <= i < bytes.len() ==> (#[trigger] bytes[i] >= 32 && bytes[i] != 127) || bytes[i]
                == 9,
{
    if is_value(bytes) {
        assert forall|i: int| 0 <= i < bytes.len() implies (#[trigger] bytes[i] >= 32 && bytes[i]
            != 127) || bytes[i] == 9 by {
            assert(crate::headers::is_value_byte(bytes[i]));
        }
    }
}

/// A header name and a method are tokens: letters, digits and these signs, at least one of them,
/// and for a name at most 65535.
pub proof fn law_tokens(bytes: Seq<u8>)
    ensures
        ({
            let token = bytes.len() > 0 && forall|i: int|
                0 <= i < bytes.len() ==> {
                    let b = #[trigger] bytes[i];
                    ||| 48 <= b <= 57
                    ||| 65 <= b <= 90
                    ||| 97 <= b <= 122
                    ||| b == 33 || b == 35 || b == 36 || b == 37 || b == 38 || b == 39 || b == 42
                    ||| b == 43 || b == 45 || b == 46 || b == 94 || b == 95 || b == 96 || b == 124
                    ||| b == 126
                };
            &&& is_method(bytes) <==> token
            &&& is_name(bytes) <==> token && bytes.len() <= 65535
        }),
{
    if is_method(bytes) {
        assert(forall|i: int| 0 <= i < bytes.len() ==> is_token_byte(#[trigger] bytes[i]));
    }
    if is_name(bytes) {
        assert(forall|i: int| 0 <= i < bytes.len() ==> is_token_byte(#[trigger] bytes[i]));
    }
}

/// An answer is a stream of events exactly when the first value of its content type is visible
/// ASCII with `text/event-stream` in it.
pub proof fn law_event_streams(fields: Fields)
    ensures
        event_stream(fields) <==> {
            let value = fields["content-type"@][0];
            &&& fields.contains_key("content-type"@)
            &&& forall|i: int|
                0 <= i < value.len() ==> (32 <= #[trigger] value[i] < 127) || value[i] == 9
            &&& exists|front: Seq<char>, back: Seq<char>|
                value.map_values(|b: u8| b as char) == #[trigger] (front + "text/event-stream"@
                    + back)
        },
{
    let value = fields["content-type"@][0];
    law_containing_is_standing_between(ascii_text(value), "text/event-stream"@);
    if is_visible(value) {
        assert(forall|i: int|
            0 <= i < value.len() ==> (32 <= #[trigger] value[i] < 127) || value[i] == 9);
    }
}

// Answers of the upstream

/// A status that the configuration lists ends the attempt as a refusal with that status, whatever
/// the header fields say; no other status does.
pub proof fn law_listed_statuses_are_refusals(statuses: Seq<u16>, status: u16, fields: Fields)
    ensures
        (exists|i: int| 0 <= i < statuses.len() && #[trigger] statuses[i] == status) ==> next_of(
            statuses,
            status,
            fields,
        ) == Next::Done(Forward::Exhausted { status }),
        (forall|i: int| 0 <= i < statuses.len() ==> #[trigger] statuses[i] != status) ==> next_of(
            statuses,
            status,
            fields,
        ) == if event_stream(fields) {
            Next::Peek
        } else {
            Next::Read
        },
{
}

/// What is decided on the status is the same for any two sets of header fields.
pub proof fn law_statuses_do_not_rest_on_headers(
    statuses: Seq<u16>,
    status: u16,
    fields: Fields,
    other: Fields,
)
    ensures
        next_of(statuses, status, fields) is Done <==> next_of(statuses, status, other) is Done,
        next_of(statuses, status, fields) is Done <==> statuses.contains(status),
{
}

/// An answer of the upstream with a status from 100 to 999 and fewer names than a map is sure to
/// hold is relayed: with that status, and with the fields that come back.  An answer that is not
/// relayed says so, and only where one of the two fails.
pub proof fn law_answers_are_relayed(answer: Answer, status: u16, fields: Fields)
    requires
        is_built(answer, status, fields),
    ensures
        100 <= status <= 999 && fields.dom().len() < 6554 ==> answer is Relay,
        !(100 <= status <= 999) ==> answer is Plain,
        answer matches Answer::Relay(head) ==> {
            &&& head.status == status
            &&& header_contents(head.headers) == returned(fields)
        },
        answer matches Answer::Plain(reply) ==> {
            &&& reply.status == 500
            &&& reply.text@ == "failed to build response"@
        },
{
}

/// Statuses are the numbers from 100 to 999.
pub proof fn law_statuses(status: u16)
    ensures
        is_status(status) <==> 100 <= status <= 999,
{
}

/// A text is marked exactly when it is something, then a marker that is not empty, then
/// something.
pub proof fn law_marked_text(text: Seq<char>, markers: Seq<Seq<char>>)
    ensures
        marked(text, markers) <==> exists|i: int, front: Seq<char>, back: Seq<char>|
            0 <= i < markers.len() && markers[i].len() > 0 && text == #[trigger] (front
                + markers[i] + back),
{
    if marked(text, markers) {
        let i = choose|i: int|
            0 <= i < markers.len() && (#[trigger] markers[i]).len() > 0 && contains_part(
                text,
                markers[i],
            );
        law_containing_is_standing_between(text, markers[i]);
        let (front, back) = choose|front: Seq<char>, back: Seq<char>|
            text == #[trigger] (front + markers[i] + back);
        assert(text == front + markers[i] + back);
    }
    if exists|i: int, front: Seq<char>, back: Seq<char>|
        0 <= i < markers.len() && markers[i].len() > 0 && text == #[trigger] (front + markers[i]
            + back) {
        let (i, front, back) = choose|i: int, front: Seq<char>, back: Seq<char>|
            0 <= i < markers.len() && markers[i].len() > 0 && text == #[trigger] (front
                + markers[i] + back);
        law_containing_is_standing_between(text, markers[i]);
        assert(contains_part(text, markers[i]));
    }
}

/// A body is marked exactly when it is some bytes, then those of a marker that is not empty, then
/// some bytes.
pub proof fn law_marked_body(body: Seq<u8>, markers: Seq<Seq<char>>)
    ensures
        marked_bytes(body, markers) <==> exists|i: int, front: Seq<u8>, back: Seq<u8>|
            0 <= i < markers.len() && markers[i].len() > 0 && body == #[trigger] (front
                + encode_utf8(markers[i]) + back),
{
    if marked_bytes(body, markers) {
        let i = choose|i: int|
            0 <= i < markers.len() && (#[trigger] markers[i]).len() > 0 && contains_bytes(
                body,
                encode_utf8(markers[i]),
            );
        let part = encode_utf8(markers[i]);
        let at = choose|at: int| bytes_at(body, part, at);
        let front = body.subrange(0, at);
        let back = body.subrange(at + part.len(), body.len() as int);
        assert(body =~= front + part + back) by {
            assert forall|k: int| 0 <= k < body.len() implies body[k] == (front + part + back)[k] by {
                if at <= k < at + part.len() {
                    assert(body.subrange(at, at + part.len())[k - at] == part[k - at]);
                }
            }
        }
        assert(body == front + encode_utf8(markers[i]) + back);
    }
    if exists|i: int, front: Seq<u8>, back: Seq<u8>|
        0 <= i < markers.len() && markers[i].len() > 0 && body == #[trigger] (front + encode_utf8(
            markers[i],
        ) + back) {
        let (i, front, back) = choose|i: int, front: Seq<u8>, back: Seq<u8>|
            0 <= i < markers.len() && markers[i].len() > 0 && body == #[trigger] (front
                + encode_utf8(markers[i]) + back);
        let part = encode_utf8(markers[i]);
        assert(body.subrange(front.len() as int, (front.len() + part.len()) as int) =~= part);
        assert(bytes_at(body, part, front.len() as int));
        assert(contains_bytes(body, part));
    }
}

/// Markers are ordinary exactly when none of their characters is U+FFFD.
pub proof fn law_ordinary_markers(markers: Seq<Seq<char>>)
    ensures
        ordinary(markers) <==> forall|i: int, k: int|
            0 <= i < markers.len() && 0 <= k < markers[i].len() ==> #[trigger] markers[i][k]
                != '\u{FFFD}',
{
    if ordinary(markers) {
        assert forall|i: int, k: int|
            0 <= i < markers.len() && 0 <= k < markers[i].len() implies #[trigger] markers[i][k]
            != '\u{FFFD}' by {
            assert(!markers[i].contains('\u{FFFD}'));
        }
    }
}

/// A whole body is searched up to 262144 bytes and no further; of a stream the first piece is
/// searched, whatever its length, and a stream without one is never a refusal.
pub proof fn law_what_is_searched(markers: Seq<Seq<char>>, bytes: Seq<u8>)
    ensures
        bytes.len() <= 262144 ==> (body_exhausted(markers, bytes) <==> marked(
            lossy_text(bytes),
            markers,
        )),
        bytes.len() > 262144 ==> !body_exhausted(markers, bytes),
        stream_exhausted(markers, Some(bytes)) <==> marked(lossy_text(bytes), markers),
        !stream_exhausted(markers, None),
{
}

/// An attempt that is over is a refusal, with the upstream's status, or its answer, and which of
/// them is settled by what was found.
pub proof fn law_attempts_end(forward: Forward, exhausted: bool, status: u16, fields: Fields)
    requires
        ends(forward, exhausted, status, fields),
    ensures
        exhausted ==> forward == (Forward::Exhausted { status }),
        !exhausted ==> {
            &&& forward is Pass
            &&& 100 <= status <= 999 && fields.dom().len() < 6554 ==> {
                &&& forward->Pass_0 is Relay
                &&& forward->Pass_0->Relay_0.status == status
                &&& header_contents(forward->Pass_0->Relay_0.headers) == returned(fields)
            }
        },
{
}

// What the client is told

/// When every key is exhausted the client gets the status of the last refusal, or 402 where that
/// is no status, and these words.
pub proof fn law_exhausted_reply(reply: ExhaustedReply, status: u16)
    requires
        is_exhausted_reply(reply, status),
    ensures
        100 <= status <= 999 ==> reply.status == status,
        !(100 <= status <= 999) ==> reply.status == 402,
        reply.kind@ == "error"@,
        reply.error_kind@ == "all_keys_exhausted"@,
        reply.message@ == "Все API-ключи исчерпали лимит (proxy ring rotation)."@,
{
}

/// Every failure has its own words, with the cause behind them.
pub proof fn law_error_words(error: ProxyError)
    ensures
        error matches ProxyError::RequestBody { cause } ==> error.words()
            == "не удалось прочитать тело запроса: "@ + cause@,
        error matches ProxyError::AuthHeader { cause } ==> error.words()
            == "некорректное значение auth-заголовка: "@ + cause@,
        error is TooManyHeaders ==> error.words() == "слишком много заголовков"@,
        error matches ProxyError::Method { cause } ==> error.words() == "некорректный метод: "@
            + cause@,
        error matches ProxyError::Upstream { cause } ==> error.words()
            == "upstream-запрос не удался: "@ + cause@,
        error matches ProxyError::ResponseBody { cause } ==> error.words()
            == "не удалось прочитать тело ответа upstream: "@ + cause@,
        error matches ProxyError::Stream { cause } ==> error.words()
            == "ошибка чтения стрима upstream: "@ + cause@,
{
}

/// The address at the upstream is the upstream, then the path, then, where there is a query, a
/// question mark and the query: nothing is lost and nothing is put in.
pub proof fn law_target_url(upstream: Seq<char>, path: Seq<char>, query: Seq<char>)
    ensures
        target_url(upstream, path, None) == upstream + path,
        target_url(upstream, path, Some(query)) == upstream + path + seq!['?'] + query,
{
    reveal_strlit("?");
    assert("?"@ =~= seq!['?']);
}

// Values that refer to variables

/// A value without `${` expands to itself.
pub proof fn law_expanding_plain_text(text: Seq<char>, env: Map<Seq<char>, Seq<char>>)
    requires
        !contains_part(text, seq!['$', '{']),
    ensures
        expanded(text, env) == Ok::<Seq<char>, ExpandFault>(text),
        names(text) == Seq::<Seq<char>>::empty(),
{
    assert(opening() =~= seq!['$', '{']);
    crate::expand::law_plain_value_is_kept(text, env);
}

/// A reference stands for the value of its variable: what comes before the first reference stays,
/// the value follows as it is, and the rest expands on its own.  A variable that is not set is an
/// error, whatever comes behind it.
pub proof fn law_expanding_a_reference(
    front: Seq<char>,
    name: Seq<char>,
    rest: Seq<char>,
    env: Map<Seq<char>, Seq<char>>,
)
    requires
        !contains_part(front, seq!['$', '{']),
        !name.contains('}'),
    ensures
        ({
            let text = front + seq!['$', '{'] + name + seq!['}'] + rest;
            &&& names(text) == seq![name] + names(rest)
            &&& expanded(text, env) == if !env.contains_key(name) {
                Err(ExpandFault::Missing(name))
            } else {
                match expanded(rest, env) {
                    Ok(tail) => Ok(front + env[name] + tail),
                    Err(fault) => Err(fault),
                }
            }
        }),
{
    let text = front + seq!['$', '{'] + name + seq!['}'] + rest;
    let start = front.len() as int;
    let end = start + 2 + name.len();
    lemma_first_opening(front, seq!['$', '{'] + name + seq!['}'] + rest);
    assert(front + (seq!['$', '{'] + name + seq!['}'] + rest) =~= text);
    assert(first_occurrence(text, closing(), start + 2) == Some(end)) by {
        assert(text.subrange(end, end + 1) =~= closing());
        assert(occurs_at(text, closing(), end));
        assert forall|i: int| start + 2 <= i < end implies !#[trigger] occurs_at(
            text,
            closing(),
            i,
        ) by {
            assert(text[i] == name[i - start - 2]);
            if occurs_at(text, closing(), i) {
                assert(text.subrange(i, i + 1)[0] == '}');
            }
        }
        lemma_first_occurrence(text, closing(), start + 2);
    }
    assert(text.subrange(start + 2, end) =~= name);
    assert(text.subrange(0, start) =~= front);
    assert(text.skip(end + 1) =~= rest);
    lemma_expanded_shift(text, end + 1, 0, env);
}

/// A `${` without a `}` behind it is an error, and refers to no variable.
pub proof fn law_expanding_an_unclosed_reference(
    front: Seq<char>,
    rest: Seq<char>,
    env: Map<Seq<char>, Seq<char>>,
)
    requires
        !contains_part(front, seq!['$', '{']),
        !rest.contains('}'),
    ensures
        ({
            let text = front + seq!['$', '{'] + rest;
            &&& expanded(text, env) == Err::<Seq<char>, ExpandFault>(ExpandFault::Unclosed)
            &&& names(text) == Seq::<Seq<char>>::empty()
        }),
{
    let text = front + seq!['$', '{'] + rest;
    let start = front.len() as int;
    lemma_first_opening(front, seq!['$', '{'] + rest);
    assert(front + (seq!['$', '{'] + rest) =~= text);
    assert forall|i: int| start + 2 <= i implies !#[trigger] occurs_at(text, closing(), i) by {
        if occurs_at(text, closing(), i) {
            assert(text.subrange(i, i + 1)[0] == '}');
            assert(text[i] == rest[i - start - 2]);
        }
    }
    lemma_first_occurrence(text, closing(), start + 2);
}

/// The first `${` stands behind a front that holds none.
proof fn lemma_first_opening(front: Seq<char>, back: Seq<char>)
    requires
        !contains_part(front, seq!['$', '{']),
        back.len() >= 2,
        back[0] == '$',
        back[1] == '{',
    ensures
        first_occurrence(front + back, opening(), 0) == Some(front.len() as int),
{
    let text = front + back;
    let start = front.len() as int;
    assert(opening() =~= seq!['$', '{']);
    assert(text.subrange(start, start + 2) =~= opening());
    assert(occurs_at(text, opening(), start));
    assert forall|i: int| 0 <= i < start implies !#[trigger] occurs_at(text, opening(), i) by {
        if occurs_at(text, opening(), i) {
            assert(text.subrange(i, i + 2)[1] == '{');
            assert(text[i + 1] == '{');
            if i + 2 <= start {
                assert(front.subrange(i, i + 2) =~= text.subrange(i, i + 2));
                assert(occurs_at(front, opening(), i));
            } else {
                assert(text[start] == back[0]);
            }
        }
    }
    lemma_first_occurrence(text, opening(), 0);
}

/// Searching behind a position is searching what stands behind it.
proof fn lemma_occurrence_shift(text: Seq<char>, part: Seq<char>, by: int, from: int)
    requires
        0 <= by <= text.len(),
        0 <= from,
    ensures
        match first_occurrence(text.skip(by), part, from) {
            Some(at) => first_occurrence(text, part, from + by) == Some(at + by),
            None => first_occurrence(text, part, from + by) is None,
        },
    decreases text.len() - by - from + 1,
{
    let rest = text.skip(by);
    if from + part.len() <= rest.len() {
        assert(rest.subrange(from, from + part.len()) =~= text.subrange(
            from + by,
            from + by + part.len(),
        ));
        assert(occurs_at(rest, part, from) == occurs_at(text, part, from + by));
        if !occurs_at(rest, part, from) {
            if from == rest.len() {
                assert(rest.subrange(from, from) =~= part);
            }
            lemma_occurrence_shift(text, part, by, from + 1);
        }
    }
}

/// What stands behind a position expands as it does on its own.
proof fn lemma_expanded_shift(
    text: Seq<char>,
    by: int,
    pos: int,
    env: Map<Seq<char>, Seq<char>>,
)
    requires
        0 <= by <= text.len(),
        0 <= pos <= text.len() - by,
    ensures
        expanded_from(text.skip(by), pos, env) == expanded_from(text, pos + by, env),
        names_from(text.skip(by), pos) == names_from(text, pos + by),
    decreases text.len() - by - pos,
{
    let rest = text.skip(by);
    lemma_occurrence_shift(text, opening(), by, pos);
    lemma_first_occurrence(rest, opening(), pos);
    match first_occurrence(rest, opening(), pos) {
        None => {
            assert(rest.skip(pos) =~= text.skip(pos + by));
        },
        Some(start) => {
            lemma_occurrence_shift(text, closing(), by, start + 2);
            lemma_first_occurrence(rest, closing(), start + 2);
            if let Some(end) = first_occurrence(rest, closing(), start + 2) {
                assert(rest.subrange(start + 2, end) =~= text.subrange(start + by + 2, end + by));
                assert(rest.subrange(pos, start) =~= text.subrange(pos + by, start + by));
                lemma_expanded_shift(text, by, end + 1, env);
            }
        },
    }
}

// The configuration

/// These two settings, in any case, name the two headers, and no other setting names one.
pub proof fn law_auth_header_settings(setting: Seq<char>)
    ensures
        AuthHeader::named(setting) == Some(AuthHeader::XApiKey) <==> ascii_lower(setting)
            == "x-api-key"@,
        AuthHeader::named(setting) == Some(AuthHeader::Authorization) <==> ascii_lower(setting)
            == "authorization"@,
{
    reveal_strlit("x-api-key");
    reveal_strlit("authorization");
    assert("x-api-key"@.len() != "authorization"@.len());
}

/// The key travels as it is under `x-api-key`, and as a bearer token under `authorization`.
pub proof fn law_auth_header_fields(key: Seq<char>)
    ensures
        AuthHeader::XApiKey.name() == "x-api-key"@,
        AuthHeader::XApiKey.value(key) == key,
        AuthHeader::Authorization.name() == "authorization"@,
        AuthHeader::Authorization.value(key) == "Bearer "@ + key,
{
}

/// A configuration is accepted exactly when its auth header is one of the two, it has a key, each
/// key expands to more than white space, and its upstream is more than slashes.
pub proof fn law_accepted_exactly_when(raw: RawSettings, env: Map<Seq<char>, Seq<char>>)
    ensures
        meaning(raw, env) is Ok <==> {
            &&& ascii_lower(raw.auth_header) == "x-api-key"@ || ascii_lower(raw.auth_header)
                == "authorization"@
            &&& raw.keys.len() > 0
            &&& forall|i: int|
                0 <= i < raw.keys.len() ==> {
                    &&& expanded(#[trigger] raw.keys[i], env) is Ok
                    &&& trimmed(expanded(raw.keys[i], env)->Ok_0).len() > 0
                }
            &&& exists|i: int| 0 <= i < raw.upstream.len() && #[trigger] raw.upstream[i] != '/'
        },
{
    let n = raw.keys.len() as int;
    let all_good = forall|i: int|
        0 <= i < raw.keys.len() ==> {
            &&& expanded(#[trigger] raw.keys[i], env) is Ok
            &&& trimmed(expanded(raw.keys[i], env)->Ok_0).len() > 0
        };
    law_auth_header_settings(raw.auth_header);
    if all_good {
        lemma_good_keys(raw.keys, n, env);
    }
    if keys_of(raw.keys, n, env) is Ok {
        lemma_keys_clean(raw.keys, n, env);
        let keys = keys_of(raw.keys, n, env)->Ok_0;
        assert forall|i: int| 0 <= i < n implies {
            &&& expanded(#[trigger] raw.keys[i], env) is Ok
            &&& trimmed(expanded(raw.keys[i], env)->Ok_0).len() > 0
        } by {
            assert(key_of(raw.keys[i], i, env) == Ok::<Seq<char>, ConfigFault>(keys[i]));
        }
    }
    lemma_only_slashes(raw.upstream);
}

/// An accepted configuration is what was written: the same address, markers and statuses; the
/// header that was named; the upstream but for the slashes behind it; and for each key what it
/// expands to, but for the white space round it.
pub proof fn law_accepted_configuration_is_what_was_written(
    raw: RawSettings,
    env: Map<Seq<char>, Seq<char>>,
)
    requires
        meaning(raw, env) is Ok,
    ensures
        ({
            let config = meaning(raw, env)->Ok_0;
            &&& config.listen == raw.listen
            &&& config.exhaustion_markers == raw.exhaustion_markers
            &&& config.failover_statuses == raw.failover_statuses
            &&& config.auth_header is XApiKey <==> ascii_lower(raw.auth_header) == "x-api-key"@
            &&& config.auth_header is Authorization <==> ascii_lower(raw.auth_header)
                == "authorization"@
            &&& config.upstream.last() != '/'
            &&& exists|back: Seq<char>|
                raw.upstream == #[trigger] (config.upstream + back) && forall|i: int|
                    0 <= i < back.len() ==> #[trigger] back[i] == '/'
            &&& config.keys.len() == raw.keys.len()
            &&& forall|i: int|
                0 <= i < raw.keys.len() ==> #[trigger] config.keys[i] == trimmed(
                    expanded(raw.keys[i], env)->Ok_0,
                )
        }),
{
    let config = meaning(raw, env)->Ok_0;
    let n = raw.keys.len() as int;
    law_auth_header_settings(raw.auth_header);
    law_dropping_end_slashes(raw.upstream);
    let back = choose|back: Seq<char>|
        {
            &&& raw.upstream == #[trigger] (without_end_slashes(raw.upstream) + back)
            &&& forall|i: int| 0 <= i < back.len() ==> #[trigger] back[i] == '/'
        };
    assert(raw.upstream == config.upstream + back);
    lemma_keys_clean(raw.keys, n, env);
    assert forall|i: int| 0 <= i < n implies #[trigger] config.keys[i] == trimmed(
        expanded(raw.keys[i], env)->Ok_0,
    ) by {
        assert(key_of(raw.keys[i], i, env) == Ok::<Seq<char>, ConfigFault>(config.keys[i]));
    }
}

/// A setting that names neither header is refused before anything else is looked at.
pub proof fn law_unknown_auth_header_is_refused(
    raw: RawSettings,
    env: Map<Seq<char>, Seq<char>>,
)
    requires
        ascii_lower(raw.auth_header) != "x-api-key"@,
        ascii_lower(raw.auth_header) != "authorization"@,
    ensures
        meaning(raw, env) == Err::<crate::config::Settings, ConfigFault>(
            ConfigFault::UnknownAuthHeader(ascii_lower(raw.auth_header)),
        ),
{
}

/// The first key that does not expand, or expands to nothing but white space, is the one that is
/// reported, with its position and what is wrong with it.
pub proof fn law_first_bad_key_is_reported(
    raw: RawSettings,
    env: Map<Seq<char>, Seq<char>>,
    index: int,
)
    requires
        ascii_lower(raw.auth_header) == "x-api-key"@ || ascii_lower(raw.auth_header)
            == "authorization"@,
        0 <= index < raw.keys.len(),
        forall|i: int|
            0 <= i < index ==> {
                &&& expanded(#[trigger] raw.keys[i], env) is Ok
                &&& trimmed(expanded(raw.keys[i], env)->Ok_0).len() > 0
            },
    ensures
        expanded(raw.keys[index], env) matches Err(fault) ==> meaning(raw, env) == Err::<
            crate::config::Settings,
            ConfigFault,
        >(ConfigFault::Key(index, fault)),
        expanded(raw.keys[index], env) matches Ok(text) ==> trimmed(text).len() == 0 ==> meaning(
            raw,
            env,
        ) == Err::<crate::config::Settings, ConfigFault>(ConfigFault::EmptyKey(index)),
{
    law_auth_header_settings(raw.auth_header);
    lemma_good_keys(raw.keys, index, env);
    if keys_of(raw.keys, index + 1, env) is Err {
        lemma_first_fault(raw.keys, index + 1, raw.keys.len() as int, env);
    }
}

/// Without keys a configuration is refused for that; with good keys and an upstream of slashes
/// only, for that.
pub proof fn law_keys_and_upstream_are_needed(raw: RawSettings, env: Map<Seq<char>, Seq<char>>)
    requires
        ascii_lower(raw.auth_header) == "x-api-key"@ || ascii_lower(raw.auth_header)
            == "authorization"@,
        forall|i: int|
            0 <= i < raw.keys.len() ==> {
                &&& expanded(#[trigger] raw.keys[i], env) is Ok
                &&& trimmed(expanded(raw.keys[i], env)->Ok_0).len() > 0
            },
    ensures
        raw.keys.len() == 0 ==> meaning(raw, env) == Err::<crate::config::Settings, ConfigFault>(
            ConfigFault::NoKeys,
        ),
        raw.keys.len() > 0 && (forall|i: int|
            0 <= i < raw.upstream.len() ==> #[trigger] raw.upstream[i] == '/') ==> meaning(raw, env)
            == Err::<crate::config::Settings, ConfigFault>(ConfigFault::NoUpstream),
{
    law_auth_header_settings(raw.auth_header);
    lemma_good_keys(raw.keys, raw.keys.len() as int, env);
    lemma_keys_clean(raw.keys, raw.keys.len() as int, env);
    lemma_only_slashes(raw.upstream);
}

/// Keys that are all good are taken.
proof fn lemma_good_keys(settings: Seq<Seq<char>>, count: int, env: Map<Seq<char>, Seq<char>>)
    requires
        0 <= count <= settings.len(),
        forall|i: int|
            0 <= i < count ==> {
                &&& expanded(#[trigger] settings[i], env) is Ok
                &&& trimmed(expanded(settings[i], env)->Ok_0).len() > 0
            },
    ensures
        keys_of(settings, count, env) is Ok,
    decreases count,
{
    if count > 0 {
        lemma_good_keys(settings, count - 1, env);
        assert(expanded(settings[count - 1], env) is Ok);
    }
}

/// Nothing is left of a text without its slashes exactly when it is all slashes.
proof fn lemma_only_slashes(text: Seq<char>)
    ensures
        without_end_slashes(text).len() == 0 <==> forall|i: int|
            0 <= i < text.len() ==> #[trigger] text[i] == '/',
{
    law_dropping_end_slashes(text);
    let front = without_end_slashes(text);
    let back = choose|back: Seq<char>|
        {
            &&& text == #[trigger] (front + back)
            &&& forall|i: int| 0 <= i < back.len() ==> #[trigger] back[i] == '/'
        };
    if front.len() == 0 {
        assert(text =~= back);
    } else {
        assert(text[front.len() - 1] == front.last());
    }
}

/// The variables of a configuration are those of its keys, one key after the other.
pub proof fn law_names_of_keys(settings: Seq<Seq<char>>, setting: Seq<char>)
    ensures
        names_of(Seq::empty(), 0) == Seq::<Seq<char>>::empty(),
        names_of(settings.push(setting), (settings.len() + 1) as int) == names_of(
            settings,
            settings.len() as int,
        ) + names(setting),
{
    lemma_names_of_prefix(settings, setting, settings.len() as int);
}

proof fn lemma_names_of_prefix(settings: Seq<Seq<char>>, setting: Seq<char>, count: int)
    requires
        0 <= count <= settings.len(),
    ensures
        names_of(settings.push(setting), count) == names_of(settings, count),
    decreases count,
{
    if count > 0 {
        lemma_names_of_prefix(settings, setting, count - 1);
    }
}

// Models

/// The model of a written configuration is what stands in its fields.
pub proof fn law_model_of_raw_config(raw: RawConfig)
    ensures
        raw@.listen == raw.listen@,
        raw@.upstream == raw.upstream@,
        raw@.auth_header == raw.auth_header@,
        raw@.failover_statuses == raw.failover_statuses@,
        raw@.keys.len() == raw.keys@.len(),
        forall|i: int| 0 <= i < raw.keys@.len() ==> #[trigger] raw@.keys[i] == raw.keys@[i]@,
        raw@.exhaustion_markers.len() == raw.exhaustion_markers@.len(),
        forall|i: int|
            0 <= i < raw.exhaustion_markers@.len() ==> #[trigger] raw@.exhaustion_markers[i]
                == raw.exhaustion_markers@[i]@,
{
}

/// The model of a configuration is what stands in its fields.
pub proof fn law_model_of_config(config: Config)
    ensures
        config@.listen == config.listen@,
        config@.upstream == config.upstream@,
        config@.auth_header == config.auth_header,
        config@.failover_statuses == config.failover_statuses@,
        config@.keys.len() == config.keys@.len(),
        forall|i: int|
            0 <= i < config.keys@.len() ==> #[trigger] config@.keys[i] == config.keys@[i]@,
        config@.exhaustion_markers.len() == config.exhaustion_markers@.len(),
        forall|i: int|
            0 <= i < config.exhaustion_markers@.len() ==> #[trigger] config@.exhaustion_markers[i]
                == config.exhaustion_markers@[i]@,
{
}

/// The model of an error is the error, with texts and numbers for its fields.
pub proof fn law_model_of_errors(error: ConfigError, cause: ExpandError)
    ensures
        error matches ConfigError::UnknownAuthHeader { given } ==> error@
            == ConfigFault::UnknownAuthHeader(given@),
        error matches ConfigError::Key { index, cause: inner } ==> error@ == ConfigFault::Key(
            index as int,
            inner@,
        ),
        error matches ConfigError::EmptyKey { index } ==> error@ == ConfigFault::EmptyKey(
            index as int,
        ),
        error is NoKeys ==> error@ == ConfigFault::NoKeys,
        error is NoUpstream ==> error@ == ConfigFault::NoUpstream,
        cause is Unclosed ==> cause@ == ExpandFault::Unclosed,
        cause matches ExpandError::Missing { name } ==> cause@ == ExpandFault::Missing(name@),
{
}

} // verus!
