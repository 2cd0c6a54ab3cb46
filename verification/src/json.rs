//! JSON text produced and read through `serde_json`.

use vstd::prelude::*;

use crate::text::push_str;

verus! {

/// Hexadecimal digit (lower case) for `n < 16`.
pub open spec fn hex_digit(n: int) -> char {
    if n < 10 {
        (n + 48) as char
    } else {
        (n + 87) as char
    }
}

/// How one character appears inside a JSON string literal written by
/// `serde_json`: `"` and `\` are escaped with a backslash, the control
/// characters backspace, form feed, line feed, carriage return and tab get
/// their short escapes, other characters below U+0020 become `\u00XX`, and
/// everything else stands as itself.
pub open spec fn json_escaped_char(c: char) -> Seq<char> {
    if c == '"' {
        seq!['\\', '"']
    } else if c == '\\' {
        seq!['\\', '\\']
    } else if c == '\u{8}' {
        seq!['\\', 'b']
    } else if c == '\u{c}' {
        seq!['\\', 'f']
    } else if c == '\n' {
        seq!['\\', 'n']
    } else if c == '\r' {
        seq!['\\', 'r']
    } else if c == '\t' {
        seq!['\\', 't']
    } else if (c as int) < 0x20 {
        seq!['\\', 'u', '0', '0', hex_digit(c as int / 16), hex_digit(c as int % 16)]
    } else {
        seq![c]
    }
}

/// The escaped characters of `s`, in order.
pub open spec fn json_escaped(s: Seq<char>) -> Seq<char>
    decreases s.len(),
{
    if s.len() == 0 {
        Seq::empty()
    } else {
        json_escaped(s.drop_last()) + json_escaped_char(s.last())
    }
}

/// `s` as a JSON string literal.
pub open spec fn json_string(s: Seq<char>) -> Seq<char> {
    seq!['"'] + json_escaped(s) + seq!['"']
}

/// `s` as a JSON string literal.
///
/// Trusted: calls `serde_json::to_string` on a `&str`, which writes `"`,
/// each character escaped as [`json_escaped_char`] states (the `ESCAPE`
/// table of `serde_json::ser` and `write_char_escape`), and `"`; writing to
/// a vector never fails.
#[verifier::external_body]
pub(crate) fn json_quote(s: &str) -> (r: String)
    ensures
        r@ == json_string(s@),
{
    match serde_json::to_string(s) {
        Ok(t) => t,
        Err(_) => String::new(),
    }
}

/// What the values of a stream of JSON texts are, one item per value that
/// `serde_json`'s `StreamDeserializer` yields over `text`: the string for a
/// JSON string, nothing for any other value or for an error.
pub uninterp spec fn json_string_stream(text: Seq<char>) -> Seq<Option<Seq<char>>>;

/// Views of optional strings.
pub open spec fn opt_views(s: Seq<Option<String>>) -> Seq<Option<Seq<char>>> {
    s.map_values(
        |o: Option<String>|
            match o {
                Some(x) => Some(x@),
                None => None,
            },
    )
}

/// The values of a stream of JSON texts, strings kept and other values or
/// errors marked as `None`.
///
/// Trusted: iterates `serde_json::Deserializer::from_str(text).into_iter()`
/// over `serde_json::Value`; the contract only names the outcome
/// ([`json_string_stream`]), which depends on `text` alone.
#[verifier::external_body]
pub(crate) fn json_stream_strings(text: &str) -> (r: Vec<Option<String>>)
    ensures
        opt_views(r@) == json_string_stream(text@),
{
    serde_json::Deserializer::from_str(text).into_iter::<serde_json::Value>().map(
        |item| match item {
            Ok(serde_json::Value::String(s)) => Some(s),
            _ => None,
        },
    ).collect()
}

/// The machine-readable error payload: a JSON object with the keys
/// `error`, `message` and `ok`, in that order.
pub open spec fn spec_error_payload(code: Seq<char>, message: Seq<char>) -> Seq<char> {
    "{\"error\":"@ + json_string(code) + ",\"message\":"@ + json_string(message) + ",\"ok\":false}"@
}

/// The machine-readable error payload `{"error":…,"message":…,"ok":false}`
/// printed on stderr when a command fails.
pub fn machine_error_payload(code: &str, message: &str) -> (r: String)
    ensures
        r@ == spec_error_payload(code@, message@),
{
    let mut out = String::from_str("{\"error\":");
    let c = json_quote(code);
    push_str(&mut out, c.as_str());
    push_str(&mut out, ",\"message\":");
    let m = json_quote(message);
    push_str(&mut out, m.as_str());
    push_str(&mut out, ",\"ok\":false}");
    out
}

} // verus!
