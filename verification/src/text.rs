//! Operations on text, stated over its sequence of characters.

use vstd::prelude::*;
use vstd::utf8::encode_utf8;
use vstd::utf8::encode_utf8_decode_utf8;

verus! {

/// [`String::push`] puts one character behind the text.
pub assume_specification[ String::push ](text: &mut String, c: char)
    ensures
        final(text)@ == old(text)@.push(c),
;

/// `part` stands in `text` at position `at`.
pub open spec fn occurs_at(text: Seq<char>, part: Seq<char>, at: int) -> bool {
    &&& 0 <= at
    &&& at + part.len() <= text.len()
    &&& text.subrange(at, at + part.len()) == part
}

/// `part` stands somewhere in `text`.
pub open spec fn contains_part(text: Seq<char>, part: Seq<char>) -> bool {
    exists|at: int| #[trigger] occurs_at(text, part, at)
}

/// The first position, `from` or later, at which `part` stands in `text`.
pub open spec fn first_occurrence(text: Seq<char>, part: Seq<char>, from: int) -> Option<int>
    decreases text.len() - from + 1,
{
    if from + part.len() > text.len() {
        None
    } else if occurs_at(text, part, from) {
        Some(from)
    } else {
        first_occurrence(text, part, from + 1)
    }
}

/// What [`first_occurrence`] finds is an occurrence with none before it, and it finds one
/// wherever there is one.
pub proof fn lemma_first_occurrence(text: Seq<char>, part: Seq<char>, from: int)
    requires
        0 <= from,
    ensures
        first_occurrence(text, part, from) matches Some(at) ==> {
            &&& from <= at
            &&& occurs_at(text, part, at)
            &&& forall|i: int| from <= i < at ==> !#[trigger] occurs_at(text, part, i)
        },
        first_occurrence(text, part, from) is None ==> forall|i: int|
            from <= i ==> !#[trigger] occurs_at(text, part, i),
    decreases text.len() - from + 1,
{
    if from + part.len() > text.len() {
    } else if occurs_at(text, part, from) {
    } else {
        lemma_first_occurrence(text, part, from + 1);
    }
}

/// The Unicode property White_Space.
pub open spec fn is_white_space(c: char) -> bool {
    let u = c as u32;
    ||| 0x09 <= u <= 0x0d
    ||| u == 0x20
    ||| u == 0x85
    ||| u == 0xa0
    ||| u == 0x1680
    ||| 0x2000 <= u <= 0x200a
    ||| 0x2028 <= u <= 0x2029
    ||| u == 0x202f
    ||| u == 0x205f
    ||| u == 0x3000
}

/// `text` without the characters at its start that `drop` names.
pub open spec fn strip_start(text: Seq<char>, drop: spec_fn(char) -> bool) -> Seq<char>
    decreases text.len(),
{
    if text.len() > 0 && drop(text.first()) {
        strip_start(text.drop_first(), drop)
    } else {
        text
    }
}

/// `text` without the characters at its end that `drop` names.
pub open spec fn strip_end(text: Seq<char>, drop: spec_fn(char) -> bool) -> Seq<char>
    decreases text.len(),
{
    if text.len() > 0 && drop(text.last()) {
        strip_end(text.drop_last(), drop)
    } else {
        text
    }
}

/// `text` without white space at either end.
pub open spec fn trimmed(text: Seq<char>) -> Seq<char> {
    strip_end(strip_start(text, |c: char| is_white_space(c)), |c: char| is_white_space(c))
}

/// `text` without slashes at its end.
pub open spec fn without_end_slashes(text: Seq<char>) -> Seq<char> {
    strip_end(text, |c: char| c == '/')
}

/// The letters `A` to `Z` in lower case, every other character as it is.
pub open spec fn lower_char(c: char) -> char {
    if 'A' <= c <= 'Z' {
        ((c as u32) + 32) as char
    } else {
        c
    }
}

/// `text` with the letters `A` to `Z` in lower case.
pub open spec fn ascii_lower(text: Seq<char>) -> Seq<char> {
    text.map_values(|c: char| lower_char(c))
}

/// The character of a decimal digit.
pub open spec fn digit(d: nat) -> char {
    (0x30 + d) as char
}

/// `n` in decimal digits, without leading zeros.
pub open spec fn decimal(n: nat) -> Seq<char>
    decreases n,
{
    if n < 10 {
        seq![digit(n)]
    } else {
        decimal(n / 10).push(digit(n % 10))
    }
}

/// The views of a sequence of strings.
pub open spec fn texts(strings: Seq<String>) -> Seq<Seq<char>> {
    strings.map_values(|s: String| s@)
}

/// The characters of `text`.
pub fn chars_of(text: &str) -> (chars: Vec<char>)
    ensures
        chars@ == text@,
{
    let mut chars: Vec<char> = Vec::new();
    for c in it: text.chars()
        invariant
            it.seq() == text@,
            chars@ == text@.take(it.index() as int),
    {
        chars.push(c);
    }
    chars
}

/// The characters from `from` up to `to` as a string.
pub fn string_of(chars: &Vec<char>, from: usize, to: usize) -> (text: String)
    requires
        from <= to <= chars.len(),
    ensures
        text@ == chars@.subrange(from as int, to as int),
{
    let mut text = String::new();
    for i in from..to
        invariant
            from <= to <= chars.len(),
            text@ == chars@.subrange(from as int, i as int),
    {
        text.push(chars[i]);
    }
    text
}

/// Whether two texts hold the same characters.
pub fn same_text(a: &str, b: &str) -> (same: bool)
    ensures
        same == (a@ == b@),
{
    let left = a.as_bytes();
    let right = b.as_bytes();
    proof {
        encode_utf8_decode_utf8(a@);
        encode_utf8_decode_utf8(b@);
    }
    if left.len() != right.len() {
        return false;
    }
    for i in 0..left.len()
        invariant
            left@ == encode_utf8(a@),
            right@ == encode_utf8(b@),
            left.len() == right.len(),
            forall|j: int| 0 <= j < i ==> left@[j] == right@[j],
    {
        if left[i] != right[i] {
            return false;
        }
    }
    assert(left@ =~= right@);
    true
}

/// Whether `part` stands in `text` at position `at`.
fn stands_at(text: &Vec<char>, part: &Vec<char>, at: usize) -> (found: bool)
    requires
        at + part.len() <= text.len(),
    ensures
        found == occurs_at(text@, part@, at as int),
{
    for i in 0..part.len()
        invariant
            at + part.len() <= text.len(),
            forall|j: int| 0 <= j < i ==> text@[at + j] == part@[j],
    {
        if text[at + i] != part[i] {
            assert(text@.subrange(at as int, at + part.len())[i as int] != part@[i as int]);
            return false;
        }
    }
    assert(text@.subrange(at as int, at + part.len()) =~= part@);
    true
}

/// The first position, `from` or later, at which `part` stands in `text`.
pub fn find(text: &Vec<char>, part: &Vec<char>, from: usize) -> (found: Option<usize>)
    ensures
        found matches Some(at) ==> first_occurrence(text@, part@, from as int) == Some(at as int),
        found is None ==> first_occurrence(text@, part@, from as int) is None,
{
    let mut at: usize = from;
    while part.len() <= text.len() && at <= text.len() - part.len()
        invariant
            from <= at,
            first_occurrence(text@, part@, from as int) == first_occurrence(
                text@,
                part@,
                at as int,
            ),
        decreases text.len() - at + 1,
    {
        if stands_at(text, part, at) {
            return Some(at);
        }
        assert(at < text.len()) by {
            if at == text.len() {
                assert(text@.subrange(at as int, at as int) =~= part@);
            }
        }
        at = at + 1;
    }
    None
}

/// Whether `part` stands somewhere in `text`.
pub fn contains(text: &str, part: &str) -> (found: bool)
    ensures
        found == contains_part(text@, part@),
{
    proof {
        lemma_first_occurrence(text@, part@, 0);
    }
    find(&chars_of(text), &chars_of(part), 0).is_some()
}

fn white_space(c: char) -> (yes: bool)
    ensures
        yes == is_white_space(c),
{
    let u: u32 = c as u32;
    (0x09 <= u && u <= 0x0d) || u == 0x20 || u == 0x85 || u == 0xa0 || u == 0x1680 || (0x2000 <= u
        && u <= 0x200a) || (0x2028 <= u && u <= 0x2029) || u == 0x202f || u == 0x205f || u == 0x3000
}

/// `text` without white space at either end.
pub fn trim(text: &str) -> (inner: String)
    ensures
        inner@ == trimmed(text@),
{
    let chars = chars_of(text);
    let ghost drop = |c: char| is_white_space(c);
    let mut from: usize = 0;
    assert(text@.subrange(0, text@.len() as int) =~= text@);
    while from < chars.len() && white_space(chars[from])
        invariant
            chars@ == text@,
            drop == (|c: char| is_white_space(c)),
            from <= chars.len(),
            strip_start(text@, drop) == strip_start(
                text@.subrange(from as int, text@.len() as int),
                drop,
            ),
        decreases chars.len() - from,
    {
        proof {
            let rest = text@.subrange(from as int, text@.len() as int);
            assert(rest.first() == text@[from as int]);
            assert(rest.drop_first() =~= text@.subrange(from + 1, text@.len() as int));
        }
        from = from + 1;
    }
    let ghost rest = text@.subrange(from as int, text@.len() as int);
    assert(rest.len() > 0 ==> rest.first() == text@[from as int]);
    assert(strip_start(text@, drop) == rest);
    let mut to: usize = chars.len();
    while from < to && white_space(chars[to - 1])
        invariant
            chars@ == text@,
            drop == (|c: char| is_white_space(c)),
            from <= to <= chars.len(),
            strip_end(rest, drop) == strip_end(text@.subrange(from as int, to as int), drop),
        decreases to - from,
    {
        proof {
            let part = text@.subrange(from as int, to as int);
            assert(part.last() == text@[to - 1]);
            assert(part.drop_last() =~= text@.subrange(from as int, to - 1));
        }
        to = to - 1;
    }
    proof {
        let part = text@.subrange(from as int, to as int);
        assert(part.len() > 0 ==> part.last() == text@[to - 1]);
        assert(strip_end(rest, drop) == part);
    }
    string_of(&chars, from, to)
}

/// `text` without slashes at its end.
pub fn trim_end_slashes(text: &str) -> (front: String)
    ensures
        front@ == without_end_slashes(text@),
{
    let chars = chars_of(text);
    let ghost drop = |c: char| c == '/';
    let mut to: usize = chars.len();
    assert(text@.take(to as int) =~= text@);
    while 0 < to && chars[to - 1] == '/'
        invariant
            chars@ == text@,
            drop == (|c: char| c == '/'),
            to <= chars.len(),
            strip_end(text@, drop) == strip_end(text@.take(to as int), drop),
        decreases to,
    {
        proof {
            let part = text@.take(to as int);
            assert(part.last() == text@[to - 1]);
            assert(part.drop_last() =~= text@.take(to - 1));
        }
        to = to - 1;
    }
    proof {
        let part = text@.take(to as int);
        assert(part.len() > 0 ==> part.last() == text@[to - 1]);
        assert(strip_end(text@, drop) == part);
        assert(part =~= text@.subrange(0, to as int));
    }
    string_of(&chars, 0, to)
}

fn lower(c: char) -> (l: char)
    ensures
        l == lower_char(c),
{
    if 'A' <= c && c <= 'Z' {
        ((c as u8) + 32) as char
    } else {
        c
    }
}

/// `text` with the letters `A` to `Z` in lower case.
pub fn to_ascii_lower(text: &str) -> (low: String)
    ensures
        low@ == ascii_lower(text@),
{
    let chars = chars_of(text);
    let mut low = String::new();
    for i in 0..chars.len()
        invariant
            chars@ == text@,
            low@ == ascii_lower(text@).take(i as int),
    {
        low.push(lower(chars[i]));
    }
    low
}

/// `n` in decimal digits.
pub fn to_decimal(n: usize) -> (text: String)
    ensures
        text@ == decimal(n as nat),
    decreases n,
{
    let last: u8 = (n % 10) as u8;
    let mut text = if n < 10 {
        String::new()
    } else {
        to_decimal(n / 10)
    };
    text.push((0x30 + last) as char);
    text
}

} // verus!
