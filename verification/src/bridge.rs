//! Calls into other crates. The contracts here are taken on trust.

use vstd::prelude::*;

use crate::text::digit;

verus! {

/// A lowercase hexadecimal digit.
pub open spec fn is_hex_digit(c: char) -> bool {
    ('0' <= c && c <= '9') || ('a' <= c && c <= 'f')
}

/// A text of `n` lowercase hexadecimal digits.
pub open spec fn is_hex(text: Seq<char>, n: nat) -> bool {
    text.len() == n && forall|i: int| 0 <= i < n ==> is_hex_digit(#[trigger] text[i])
}

/// A random token: [`uuid::Uuid::new_v4`] in its simple form.
///
/// Trusted: the simple form of a UUID is its sixteen bytes in lowercase
/// hexadecimal, without hyphens. Nothing is said of which token it is, nor
/// that two tokens differ: they are random.
#[verifier::external_body]
pub(crate) fn fresh_token() -> (r: String)
    ensures
        is_hex(r@, 32),
{
    uuid::Uuid::new_v4().simple().to_string()
}

/// The current time in microseconds since the Unix epoch:
/// [`chrono::Utc::now`] and its `timestamp_micros`.
///
/// Trusted with nothing: the result is whatever the clock says.
#[verifier::external_body]
pub(crate) fn clock_micros() -> (r: i64) {
    chrono::Utc::now().timestamp_micros()
}

/// Whether a number of microseconds since the Unix epoch is a point in time
/// that [`chrono::DateTime::from_timestamp_micros`] accepts.
///
/// Trusted: it accepts exactly the microseconds from the start of the year
/// -262143 to the end of the year 262142.
#[verifier::external_body]
pub(crate) fn is_representable_micros(us: i64) -> (r: bool)
    ensures
        r == (-8_334_601_228_800_000_000 <= us <= 8_210_266_876_799_999_999),
{
    chrono::DateTime::<chrono::Utc>::from_timestamp_micros(us).is_some()
}

/// The SHA-256 digest of some bytes, in lowercase hexadecimal.
pub uninterp spec fn sha256_of(bytes: Seq<u8>) -> Seq<char>;

/// The SHA-256 digest of some bytes in lowercase hexadecimal:
/// [`sha2::Sha256`] through `Digest::digest`, formatted with `{:x}`.
///
/// Trusted: the digest is determined by the bytes, and its thirty-two bytes
/// give sixty-four hexadecimal digits.
#[verifier::external_body]
pub(crate) fn sha256_hex(bytes: &[u8]) -> (r: String)
    ensures
        r@ == sha256_of(bytes@),
        is_hex(r@, 64),
{
    format!("{:x}", <sha2::Sha256 as sha2::Digest>::digest(bytes))
}

/// The lowercase hexadecimal digit for `d`.
pub open spec fn hex_digit(d: int) -> char {
    if d < 10 { digit(d) } else if d == 10 { 'a' } else if d == 11 { 'b' } else if d == 12 { 'c' }
    else if d == 13 { 'd' } else if d == 14 { 'e' } else { 'f' }
}

/// A character inside a JSON string: quotes, backslashes and control
/// characters are escaped, anything else stands for itself.
pub open spec fn json_escaped(c: char) -> Seq<char> {
    if c == '"' { seq!['\\', '"'] }
    else if c == '\\' { seq!['\\', '\\'] }
    else if c == '\u{8}' { seq!['\\', 'b'] }
    else if c == '\t' { seq!['\\', 't'] }
    else if c == '\n' { seq!['\\', 'n'] }
    else if c == '\u{c}' { seq!['\\', 'f'] }
    else if c == '\r' { seq!['\\', 'r'] }
    else if ' ' > c { seq!['\\', 'u', '0', '0', hex_digit(c as int / 16), hex_digit(c as int % 16)] }
    else { seq![c] }
}

/// The characters of a JSON string between its quotes.
pub open spec fn json_contents(text: Seq<char>) -> Seq<char>
    decreases text.len(),
{
    if text.len() == 0 {
        Seq::empty()
    } else {
        json_escaped(text[0]) + json_contents(text.drop_first())
    }
}

/// A text as a JSON string, with quotes and escapes.
pub open spec fn json_quoted(text: Seq<char>) -> Seq<char> {
    seq!['"'] + json_contents(text) + seq!['"']
}

/// A text as a JSON string: [`serde_json::to_string`] on a `str`.
///
/// Trusted: it writes the text between quotes, character by character. A
/// quote and a backslash are escaped with a backslash; backspace, tab, line
/// feed, form feed and carriage return by their letters; any other character
/// below the space as `\u00` and two lowercase hexadecimal digits. Everything
/// else is written as it is. Writing a `str` into memory cannot fail.
#[verifier::external_body]
pub(crate) fn json_quote(text: &str) -> (r: String)
    ensures
        r@ == json_quoted(text@),
{
    serde_json::to_string(text).expect("a str is always JSON")
}

/// Where a reader of JSON stands: inside how many brackets, inside a string or
/// not, and right after a backslash in it or not.
#[verifier::ext_equal]
pub struct Standing {
    /// How many brackets and braces are open.
    pub depth: nat,
    /// Whether a string is open.
    pub quoted: bool,
    /// Whether the next character of the string is escaped.
    pub escaped: bool,
}

/// Where a reader stands after one more character; nowhere when that character
/// ends the value it was reading.
pub open spec fn json_step(s: Standing, c: char) -> Option<Standing> {
    if s.quoted {
        if s.escaped {
            Some(Standing { escaped: false, ..s })
        } else if c == '\\' {
            Some(Standing { escaped: true, ..s })
        } else if c == '"' {
            Some(Standing { quoted: false, ..s })
        } else {
            Some(s)
        }
    } else if c == '"' {
        Some(Standing { quoted: true, ..s })
    } else if c == '[' || c == '{' {
        Some(Standing { depth: s.depth + 1, ..s })
    } else if s.depth == 0 && (c == ',' || c == ']' || c == '}') {
        None
    } else if c == ']' || c == '}' {
        Some(Standing { depth: (s.depth - 1) as nat, ..s })
    } else {
        Some(s)
    }
}

/// Where a reader stands outside of everything.
pub open spec fn outside() -> Standing {
    Standing { depth: 0, quoted: false, escaped: false }
}

/// Where a reader that starts at `s` stands after a text.
pub open spec fn json_read(s: Standing, text: Seq<char>) -> Option<Standing>
    decreases text.len(),
{
    if text.len() == 0 {
        Some(s)
    } else {
        match json_read(s, text.drop_last()) {
            None => None,
            Some(t) => json_step(t, text.last()),
        }
    }
}

/// The text is one JSON value as far as brackets and quotes go: a reader stays
/// inside it to its end, and has closed there all that it opened.
pub open spec fn one_value(text: Seq<char>) -> bool {
    json_read(outside(), text) == Some(outside())
}

/// JSON text without blanks and with the members of every object in the order
/// of their keys; nothing where the text is not JSON.
pub uninterp spec fn json_compact_of(text: Seq<char>) -> Option<Seq<char>>;

/// JSON text in its compact form: [`serde_json::from_str`] into a
/// `serde_json::Value`, then `Value::to_string`.
///
/// Trusted: the compact form is determined by the text, and is one JSON value:
/// it has no comma outside its brackets and strings, and closes every bracket
/// and string that it opens.
#[verifier::external_body]
pub(crate) fn json_compact(text: &str) -> (r: Option<String>)
    ensures
        match r {
            Some(t) => json_compact_of(text@) == Some(t@) && one_value(t@),
            None => json_compact_of(text@) is None,
        },
{
    match serde_json::from_str::<serde_json::Value>(text) {
        Ok(value) => Some(value.to_string()),
        Err(_) => None,
    }
}

/// What a JSON object holds under a key.
#[derive(Debug)]
pub enum JsonMember {
    /// Nothing, or the JSON is not an object.
    Absent,
    /// A boolean.
    Flag(bool),
    /// A string.
    Text(String),
    /// Something else.
    Other,
}

/// Mathematical form of [`JsonMember`].
#[verifier::ext_equal]
pub enum MemberView {
    /// See [`JsonMember::Absent`].
    Absent,
    /// See [`JsonMember::Flag`].
    Flag(bool),
    /// See [`JsonMember::Text`].
    Text(Seq<char>),
    /// See [`JsonMember::Other`].
    Other,
}

impl DeepView for JsonMember {
    type V = MemberView;

    open spec fn deep_view(&self) -> MemberView {
        match *self {
            JsonMember::Absent => MemberView::Absent,
            JsonMember::Flag(b) => MemberView::Flag(b),
            JsonMember::Text(t) => MemberView::Text(t@),
            JsonMember::Other => MemberView::Other,
        }
    }
}

/// What JSON text holds under a key at its top level.
pub uninterp spec fn json_member_of(json: Seq<char>, key: Seq<char>) -> MemberView;

/// What JSON text holds under a key at its top level: [`serde_json::from_str`]
/// into a `serde_json::Value`, then `Value::get`.
///
/// Trusted: the member is determined by the text and the key. Text that is not
/// JSON, or not an object, has no members.
#[verifier::external_body]
pub(crate) fn json_member(json: &str, key: &str) -> (r: JsonMember)
    ensures
        r.deep_view() == json_member_of(json@, key@),
{
    let value: serde_json::Value = match serde_json::from_str(json) {
        Ok(value) => value,
        Err(_) => return JsonMember::Absent,
    };
    match value.get(key) {
        None => JsonMember::Absent,
        Some(serde_json::Value::Bool(flag)) => JsonMember::Flag(*flag),
        Some(serde_json::Value::String(text)) => JsonMember::Text(text.clone()),
        Some(_) => JsonMember::Other,
    }
}

} // verus!
