//! Layered analysis of captured sign-up traffic: MessagePack (also nested in
//! binary fields), UTF-8 text, or, for unknown bytes, printable findings and
//! byte patterns.
use vstd::prelude::*;
use vstd::utf8::{valid_utf8, decode_utf8};
use crate::json::{bool_text, comma_join, lemma_comma_join_push, push_bool, push_quoted_str, push_usize, quoted};
use crate::text::{bounded, bounded_text, chars_of, dec_text, has_sub, hex_digit, contains_chars, push_char, push_dec};
use crate::protocol::path_key;
use crate::capture::{CapturedRequest, CapturedResponse, last_request_index, last_response_index, find_last_request, find_last_response, lemma_last_request_index, lemma_last_response_index};
use crate::order::{last_n, sorted_by, sorted_elements, u64_order, ids_in_order, lemma_u64_order};
use std::collections::BTreeSet;

verus! {

pub const MAX_RECORDS: usize = 32;
pub const MAX_DECODE_BYTES: usize = 8388608;
pub const MAX_PREFIX_PROBE: usize = 64;
pub const MAX_INLINE_BINARY: usize = 4096;
pub const MAX_VALUE_DEPTH: usize = 12;
pub const MAX_CONTAINER_ITEMS: usize = 256;
pub const MAX_STRING_CHARS: usize = 16384;
pub const MAX_FINDINGS: usize = 64;
pub const MAX_FINDING_CHARS: usize = 512;
pub const MAX_HEX_PREVIEW: usize = 32;

/// `is_signup_url`: the lower-cased path names a (pre-)sign-up route.
pub open spec fn signup_url(url: Seq<char>) -> bool {
    let p = path_key(url);
    has_sub(p, "pre_signup"@) || has_sub(p, "pre-signup"@) || has_sub(p, "/signup"@)
}

/// `is_signup_url`.
pub fn is_signup_url(url: &str) -> (r: bool)
    ensures
        r == signup_url(url@),
{
    let chars = chars_of(url);
    let p = crate::protocol::lower_path_chars(chars.as_slice());
    let a = chars_of("pre_signup");
    let b = chars_of("pre-signup");
    let c = chars_of("/signup");
    contains_chars(p.as_slice(), a.as_slice()) || contains_chars(p.as_slice(), b.as_slice())
        || contains_chars(p.as_slice(), c.as_slice())
}

/// std's `str::from_utf8`: `Some` exactly when the bytes are valid UTF-8,
/// holding the text they encode.
#[verifier::external_body]
fn utf8_text(bytes: &[u8]) -> (r: Option<&str>)
    ensures
        r is Some <==> valid_utf8(bytes@),
        r matches Some(t) ==> t@ == decode_utf8(bytes@),
{
    std::str::from_utf8(bytes).ok()
}

/// Lower-case hexadecimal, two digits per byte (`hex_encode`).
pub open spec fn hex_bytes(bytes: Seq<u8>) -> Seq<char>
    decreases bytes.len(),
{
    if bytes.len() == 0 {
        Seq::empty()
    } else {
        hex_bytes(bytes.drop_last()) + seq![
            hex_digit((bytes.last() / 16) as nat),
            hex_digit((bytes.last() % 16) as nat),
        ]
    }
}

/// Appends `hex_bytes` of `bytes`.
pub fn push_hex_bytes(out: &mut String, bytes: &[u8])
    ensures
        final(out)@ == old(out)@ + hex_bytes(bytes@),
{
    let ghost base = out@;
    let mut i: usize = 0;
    while i < bytes.len()
        invariant
            i <= bytes@.len(),
            out@ == base + hex_bytes(bytes@.take(i as int)),
        decreases bytes@.len() - i,
    {
        let b = bytes[i];
        let hi: char = if b / 16 < 10 { (48u8 + b / 16) as char } else { (87u8 + b / 16) as char };
        let lo: char = if b % 16 < 10 { (48u8 + b % 16) as char } else { (87u8 + b % 16) as char };
        push_char(out, hi);
        push_char(out, lo);
        proof {
            assert(bytes@.take(i + 1).drop_last() =~= bytes@.take(i as int));
            assert(out@ =~= base + hex_bytes(bytes@.take(i + 1)));
        }
        i = i + 1;
    }
    assert(bytes@.take(bytes@.len() as int) =~= bytes@);
}

/// `hex_encode`.
pub fn hex_encode(bytes: &[u8]) -> (r: String)
    ensures
        r@ == hex_bytes(bytes@),
{
    let mut r = String::new();
    push_hex_bytes(&mut r, bytes);
    r
}

/// The texts quoted and comma-separated.
pub open spec fn string_array_text(values: Seq<Seq<char>>) -> Seq<char> {
    comma_join(values.map_values(|v: Seq<char>| quoted(v)))
}

/// `string_array_json`.
pub fn string_array_json(values: &[String]) -> (r: String)
    ensures
        r@ == string_array_text(values@.map_values(|v: String| v@)),
{
    let ghost views = values@.map_values(|v: String| v@);
    let ghost parts = views.map_values(|v: Seq<char>| quoted(v));
    let mut r = String::new();
    let mut i: usize = 0;
    while i < values.len()
        invariant
            i <= values@.len(),
            views == values@.map_values(|v: String| v@),
            parts == views.map_values(|v: Seq<char>| quoted(v)),
            r@ == comma_join(parts.take(i as int)),
        decreases values@.len() - i,
    {
        proof {
            lemma_comma_join_push(parts.take(i as int), parts[i as int]);
            assert(parts.take(i as int).push(parts[i as int]) =~= parts.take(i + 1));
        }
        if i > 0 {
            r.append(",");
        }
        push_quoted_str(&mut r, values[i].as_str());
        i = i + 1;
    }
    assert(parts.take(values@.len() as int) =~= parts);
    r
}

/// How many of `bytes` equal `b`.
pub open spec fn count_byte(bytes: Seq<u8>, b: u8) -> nat
    decreases bytes.len(),
{
    if bytes.len() == 0 {
        0
    } else {
        count_byte(bytes.drop_last(), b) + if bytes.last() == b {
            1nat
        } else {
            0nat
        }
    }
}

/// `byte_pattern_json`: `{"kind":"repeated_byte",...}` when at least 80% of
/// the bytes equal the first one, else `null`.
pub open spec fn byte_pattern_text(bytes: Seq<u8>) -> Seq<char> {
    if bytes.len() == 0 {
        "null"@
    } else {
        let same = count_byte(bytes, bytes[0]);
        let ratio = (same * 100) / bytes.len();
        if ratio >= 80 {
            r#"{"kind":"repeated_byte","byte":"#@ + dec_text(bytes[0] as nat) + r#","ratio_percent":"#@
                + dec_text(ratio) + "}"@
        } else {
            "null"@
        }
    }
}

proof fn lemma_count_byte_bound(bytes: Seq<u8>, b: u8)
    ensures
        count_byte(bytes, b) <= bytes.len(),
    decreases bytes.len(),
{
    if bytes.len() > 0 {
        lemma_count_byte_bound(bytes.drop_last(), b);
    }
}

/// `byte_pattern_json`.
pub fn byte_pattern_json(bytes: &[u8]) -> (r: String)
    ensures
        r@ == byte_pattern_text(bytes@),
{
    let mut r = String::new();
    if bytes.len() == 0 {
        r.append("null");
        return r;
    }
    let first = bytes[0];
    let mut same: usize = 0;
    let mut i: usize = 0;
    while i < bytes.len()
        invariant
            i <= bytes@.len(),
            same as nat == count_byte(bytes@.take(i as int), first),
            same <= i,
        decreases bytes@.len() - i,
    {
        proof {
            assert(bytes@.take(i + 1).drop_last() =~= bytes@.take(i as int));
        }
        if bytes[i] == first {
            same = same + 1;
        }
        i = i + 1;
    }
    assert(bytes@.take(bytes@.len() as int) =~= bytes@);
    let ratio: u128 = (same as u128) * 100 / (bytes.len() as u128);
    proof {
        assert(same <= bytes.len());
        assert((same as u128) * 100 <= (bytes.len() as u128) * 100);
        let x: int = same as int;
        let n: int = bytes.len() as int;
        assert(ratio as int == (x * 100) / n);
        assert((x * 100) / n <= 100) by (nonlinear_arith)
            requires x <= n, n > 0;
    }
    if ratio >= 80 {
        r.append(r#"{"kind":"repeated_byte","byte":"#);
        push_dec(&mut r, first as u64);
        r.append(r#","ratio_percent":"#);
        push_dec(&mut r, ratio as u64);
        r.append("}");
    } else {
        r.append("null");
    }
    assert(r@ =~= byte_pattern_text(bytes@));
    r
}

} // verus!

verus! {

/// What `rmpv::decode::read_value` gives when it reads one MessagePack value
/// from the start of `bytes` through a `std::io::Cursor`: the number of bytes
/// it consumed and the value read; `None` when it fails.
pub uninterp spec fn messagepack_read(bytes: Seq<u8>) -> Option<(nat, rmpv::Value)>;

/// `rmpv::Value`, a decoded MessagePack value, carried through unopened.
#[verifier::external_type_specification]
#[verifier::external_body]
pub struct ExMessagePackValue(rmpv::Value);

/// Reads one MessagePack value from the start of `bytes` with
/// `rmpv::decode::read_value` on a `std::io::Cursor`, returning the cursor
/// position after the value and the value. Trusted contract: the result is
/// `messagepack_read(bytes@)`, and the position is at most `bytes.len()`.
#[verifier::external_body]
fn read_messagepack_value(bytes: &[u8]) -> (r: Option<(usize, rmpv::Value)>)
    ensures
        match r {
            Some((n, v)) => messagepack_read(bytes@) == Some((n as nat, v)) && n <= bytes@.len(),
            None => messagepack_read(bytes@) is None,
        },
{
    let mut cursor = std::io::Cursor::new(bytes);
    match rmpv::decode::read_value(&mut cursor) {
        Ok(value) => Some((cursor.position() as usize, value)),
        Err(_) => None,
    }
}

/// The value of a read that consumed exactly the `rest` bytes it was given;
/// `None` for a failed read or one that left bytes over.
pub fn value_filling(read: Option<(usize, rmpv::Value)>, rest: usize) -> (r: Option<rmpv::Value>)
    ensures
        r == match read {
            Some((n, v)) => if n == rest {
                Some(v)
            } else {
                None
            },
            None => None,
        },
{
    match read {
        Some((n, v)) => if n == rest {
            Some(v)
        } else {
            None
        },
        None => None,
    }
}

/// The last offset probed: up to `MAX_PREFIX_PROBE` leading bytes may be
/// skipped when probing for a prefix, none otherwise.
pub open spec fn probe_limit(len: nat, prefix_probe: bool) -> nat {
    if prefix_probe {
        if MAX_PREFIX_PROBE < len - 1 {
            MAX_PREFIX_PROBE as nat
        } else {
            (len - 1) as nat
        }
    } else {
        0
    }
}

/// One MessagePack value fills `bytes` exactly from offset `o`.
pub open spec fn decodes_rest_at(bytes: Seq<u8>, o: int) -> bool {
    messagepack_read(bytes.skip(o)) matches Some((n, _)) && n == bytes.len() - o
}

/// The MessagePack value read from offset `o` of `bytes`.
pub open spec fn messagepack_value_at(bytes: Seq<u8>, o: int) -> rmpv::Value {
    messagepack_read(bytes.skip(o)).unwrap().1
}

/// The first offset in `o..=limit` at which one value fills the rest.
pub open spec fn first_decodable(bytes: Seq<u8>, o: int, limit: int) -> Option<int>
    decreases limit + 1 - o,
{
    if o > limit {
        None
    } else if decodes_rest_at(bytes, o) {
        Some(o)
    } else {
        first_decodable(bytes, o + 1, limit)
    }
}

/// `decode_messagepack`: the offset at which the bytes are one MessagePack
/// value to their end, trying offsets from 0 up to the probe limit; none for
/// empty input or input over `MAX_DECODE_BYTES`.
pub open spec fn messagepack_offset(bytes: Seq<u8>, prefix_probe: bool) -> Option<int> {
    if bytes.len() == 0 || bytes.len() > MAX_DECODE_BYTES {
        None
    } else {
        first_decodable(bytes, 0, probe_limit(bytes.len(), prefix_probe) as int)
    }
}

/// `decode_messagepack`: the first offset (at most 64 with `prefix_probe`,
/// else 0) from which the bytes hold exactly one MessagePack value, and the
/// value read there.
pub fn decode_messagepack(bytes: &[u8], prefix_probe: bool) -> (r: Option<(usize, rmpv::Value)>)
    ensures
        match r {
            Some((o, v)) => messagepack_offset(bytes@, prefix_probe) == Some(o as int)
                && v == messagepack_value_at(bytes@, o as int),
            None => messagepack_offset(bytes@, prefix_probe) is None,
        },
{
    if bytes.len() == 0 || bytes.len() > MAX_DECODE_BYTES {
        return None;
    }
    let max_offset: usize = if prefix_probe {
        if MAX_PREFIX_PROBE < bytes.len() - 1 { MAX_PREFIX_PROBE } else { bytes.len() - 1 }
    } else {
        0
    };
    let mut offset: usize = 0;
    while offset <= max_offset
        invariant
            max_offset as nat == probe_limit(bytes@.len(), prefix_probe),
            max_offset < bytes@.len(),
            0 < bytes@.len() <= MAX_DECODE_BYTES,
            offset <= max_offset + 1,
            first_decodable(bytes@, 0, max_offset as int) == first_decodable(bytes@, offset as int, max_offset as int),
        decreases max_offset + 1 - offset,
    {
        let remaining = &bytes[offset..bytes.len()];
        assert(remaining@ =~= bytes@.skip(offset as int));
        let read = read_messagepack_value(remaining);
        let ghost g = read;
        match value_filling(read, remaining.len()) {
            Some(value) => {
                assert(decodes_rest_at(bytes@, offset as int));
                assert(first_decodable(bytes@, offset as int, max_offset as int) == Some(offset as int));
                assert(messagepack_offset(bytes@, prefix_probe) == Some(offset as int));
                assert(value == messagepack_value_at(bytes@, offset as int));
                return Some((offset, value));
            },
            None => {
                assert(!decodes_rest_at(bytes@, offset as int));
            },
        }
        offset = offset + 1;
    }
    None
}

} // verus!

verus! {

/// Decimal rendering of an integer, with a leading `-` when negative.
pub open spec fn int_text(i: int) -> Seq<char> {
    if i < 0 {
        "-"@ + dec_text((-i) as nat)
    } else {
        dec_text(i as nat)
    }
}

/// `binary_json`: a binary field, given what its MessagePack probe rendered
/// to (`nested`, consulted only below `MAX_VALUE_DEPTH`): the nested value,
/// else its UTF-8 text, else its hex (up to `MAX_INLINE_BINARY` bytes) or
/// only its length.
pub open spec fn binary_text(bytes: Seq<u8>, depth: nat, nested: Option<(nat, Seq<char>)>) -> Seq<char> {
    let head = r#"{"type":"binary","length":"#@ + dec_text(bytes.len());
    if depth < MAX_VALUE_DEPTH && nested is Some {
        head + r#","nested_candidate":{"codec":"messagepack","confidence":"heuristic_candidate","prefix_bytes":"#@
            + dec_text(nested.unwrap().0) + r#","value":"#@ + nested.unwrap().1 + "}}"@
    } else if depth < MAX_VALUE_DEPTH && valid_utf8(bytes) {
        let b = bounded(decode_utf8(bytes), MAX_STRING_CHARS as nat);
        head + r#","nested_candidate":{"codec":"utf8","confidence":"heuristic_candidate","value":"#@
            + quoted(b.0) + r#","truncated":"#@ + bool_text(b.1) + "}}"@
    } else if bytes.len() <= MAX_INLINE_BINARY {
        head + r#","hex":""#@ + hex_bytes(bytes) + "\"}"@
    } else {
        head + r#","inline":false}"#@
    }
}

/// `binary_json` with `convert` turning a found MessagePack value into a
/// `DecodedValue`: below `MAX_VALUE_DEPTH`, a value found in the bytes is
/// shown as `value_json` renders its conversion at the next depth.
pub open spec fn binary_rendered<C: Fn(&rmpv::Value) -> DecodedValue>(
    convert: C,
    bytes: Seq<u8>,
    depth: nat,
    out: Seq<char>,
) -> bool
    decreases MAX_VALUE_DEPTH + 1 - depth,
{
    if depth < MAX_VALUE_DEPTH && messagepack_offset(bytes, true) is Some {
        let o = messagepack_offset(bytes, true).unwrap();
        exists|m: DecodedValue, t: Seq<char>|
            #![trigger convert.ensures((&messagepack_value_at(bytes, o),), m), binary_text(bytes, depth, Some((o as nat, t)))]
            convert.ensures((&messagepack_value_at(bytes, o),), m) && value_rendered(convert, m, depth + 1, t)
                && out == binary_text(bytes, depth, Some((o as nat, t)))
    } else {
        out == binary_text(bytes, depth, None)
    }
}

/// `binary_json`: a binary field found at `depth`; a MessagePack value found
/// in it is converted by `convert` and rendered at the next depth.
pub fn binary_json<C: Fn(&rmpv::Value) -> DecodedValue>(bytes: &[u8], depth: usize, convert: &C) -> (r: String)
    requires
        forall|x: rmpv::Value| #[trigger] convert.requires((&x,)),
    ensures
        binary_rendered(*convert, bytes@, depth as nat, r@),
    decreases MAX_VALUE_DEPTH + 1 - depth, 0nat,
{
    let mut r = String::new();
    r.append(r#"{"type":"binary","length":"#);
    push_usize(&mut r, bytes.len());
    if depth < MAX_VALUE_DEPTH {
        match decode_messagepack(bytes, true) {
            Some((prefix, value)) => {
                let m = convert(&value);
                let text = value_json(&m, depth + 1, convert);
                r.append(r#","nested_candidate":{"codec":"messagepack","confidence":"heuristic_candidate","prefix_bytes":"#);
                push_usize(&mut r, prefix);
                r.append(r#","value":"#);
                r.append(text.as_str());
                r.append("}}");
                proof {
                    let o = messagepack_offset(bytes@, true).unwrap();
                    assert(r@ == binary_text(bytes@, depth as nat, Some((o as nat, text@))));
                    assert(convert.ensures((&messagepack_value_at(bytes@, o),), m));
                }
                return r;
            },
            None => {},
        }
        match utf8_text(bytes) {
            Some(text) => {
                let (b, truncated) = bounded_text(text, MAX_STRING_CHARS);
                r.append(r#","nested_candidate":{"codec":"utf8","confidence":"heuristic_candidate","value":"#);
                push_quoted_str(&mut r, b.as_str());
                r.append(r#","truncated":"#);
                push_bool(&mut r, truncated);
                r.append("}}");
                return r;
            },
            None => {},
        }
    }
    if bytes.len() <= MAX_INLINE_BINARY {
        r.append(r#","hex":""#);
        push_hex_bytes(&mut r, bytes);
        r.append("\"}");
    } else {
        r.append(r#","inline":false}"#);
    }
    r
}

/// A string value: quoted, or, beyond `MAX_STRING_CHARS` characters, cut and
/// marked truncated.
pub open spec fn string_value_text(text: Seq<char>) -> Seq<char> {
    let b = bounded(text, MAX_STRING_CHARS as nat);
    if b.1 {
        r#"{"type":"string","value":"#@ + quoted(b.0) + r#","truncated":true}"#@
    } else {
        quoted(b.0)
    }
}

/// The JSON of a MessagePack string value.
pub fn string_value_json(text: &str) -> (r: String)
    ensures
        r@ == string_value_text(text@),
{
    let (b, truncated) = bounded_text(text, MAX_STRING_CHARS);
    let mut r = String::new();
    if truncated {
        r.append(r#"{"type":"string","value":"#);
        push_quoted_str(&mut r, b.as_str());
        r.append(r#","truncated":true}"#);
    } else {
        push_quoted_str(&mut r, b.as_str());
    }
    r
}

/// An array value from its length and its rendered leading items: a plain
/// array when all items are shown, else an object marked truncated.
pub open spec fn array_text(total: nat, shown: Seq<Seq<char>>) -> Seq<char> {
    if total > shown.len() {
        r#"{"type":"array","length":"#@ + dec_text(total) + r#","items":["#@ + comma_join(shown)
            + r#"],"truncated":true}"#@
    } else {
        "["@ + comma_join(shown) + "]"@
    }
}

/// The JSON of a MessagePack array value.
pub fn array_json(total: usize, shown: &Vec<String>) -> (r: String)
    ensures
        r@ == array_text(total as nat, shown@.map_values(|s: String| s@)),
{
    let mut r = String::new();
    if total > shown.len() {
        r.append(r#"{"type":"array","length":"#);
        push_usize(&mut r, total);
        r.append(r#","items":["#);
        crate::json::push_joined(&mut r, shown);
        r.append(r#"],"truncated":true}"#);
    } else {
        r.append("[");
        crate::json::push_joined(&mut r, shown);
        r.append("]");
    }
    r
}

/// One map field: the quoted key and the rendered value.
pub open spec fn field_text(key: Seq<char>, value: Seq<char>) -> Seq<char> {
    quoted(key) + ":"@ + value
}

/// A map value from its length and its rendered leading fields.
pub open spec fn map_text(total: nat, fields: Seq<(Seq<char>, Seq<char>)>) -> Seq<char> {
    let body = comma_join(fields.map_values(|f: (Seq<char>, Seq<char>)| field_text(f.0, f.1)));
    if total > fields.len() {
        r#"{"type":"map","length":"#@ + dec_text(total) + r#","fields":{"#@ + body
            + r#"},"truncated":true}"#@
    } else {
        "{"@ + body + "}"@
    }
}

/// The JSON of a MessagePack map value from its key texts and rendered values.
pub fn map_json(total: usize, fields: &Vec<(String, String)>) -> (r: String)
    ensures
        r@ == map_text(total as nat, fields@.map_values(|f: (String, String)| (f.0@, f.1@))),
{
    let ghost views = fields@.map_values(|f: (String, String)| (f.0@, f.1@));
    let ghost parts = views.map_values(|f: (Seq<char>, Seq<char>)| field_text(f.0, f.1));
    let mut body = String::new();
    let mut i: usize = 0;
    while i < fields.len()
        invariant
            i <= fields@.len(),
            views == fields@.map_values(|f: (String, String)| (f.0@, f.1@)),
            parts == views.map_values(|f: (Seq<char>, Seq<char>)| field_text(f.0, f.1)),
            body@ == comma_join(parts.take(i as int)),
        decreases fields@.len() - i,
    {
        proof {
            lemma_comma_join_push(parts.take(i as int), parts[i as int]);
            assert(parts.take(i as int).push(parts[i as int]) =~= parts.take(i + 1));
        }
        if i > 0 {
            body.append(",");
        }
        push_quoted_str(&mut body, fields[i].0.as_str());
        body.append(":");
        body.append(fields[i].1.as_str());
        i = i + 1;
    }
    assert(parts.take(fields@.len() as int) =~= parts);
    let mut r = String::new();
    if total > fields.len() {
        r.append(r#"{"type":"map","length":"#);
        push_usize(&mut r, total);
        r.append(r#","fields":{"#);
        r.append(body.as_str());
        r.append(r#"},"truncated":true}"#);
    } else {
        r.append("{");
        r.append(body.as_str());
        r.append("}");
    }
    r
}

/// An extension value: its type code and its payload rendered as binary.
pub open spec fn extension_text(kind: i8, payload: Seq<char>) -> Seq<char> {
    r#"{"type":"extension","kind":"#@ + int_text(kind as int) + r#","payload":"#@ + payload + "}"@
}

/// The JSON of a MessagePack extension value.
pub fn extension_json(kind: i8, payload: &str) -> (r: String)
    ensures
        r@ == extension_text(kind, payload@),
{
    let mut r = String::new();
    r.append(r#"{"type":"extension","kind":"#);
    if kind < 0 {
        r.append("-");
        let magnitude: u64 = (0i64 - kind as i64) as u64;
        push_dec(&mut r, magnitude);
    } else {
        push_dec(&mut r, kind as u64);
    }
    r.append(r#","payload":"#);
    r.append(payload);
    r.append("}");
    assert(r@ =~= extension_text(kind, payload@));
    r
}

/// The value rendered in place of anything at `MAX_VALUE_DEPTH`.
pub open spec fn depth_limit_text() -> Seq<char> {
    r#"{"truncated":true,"reason":"max_depth"}"#@
}

/// The JSON of a value at `MAX_VALUE_DEPTH`.
pub fn depth_limit_json() -> (r: String)
    ensures
        r@ == depth_limit_text(),
{
    let mut r = String::new();
    r.append(r#"{"truncated":true,"reason":"max_depth"}"#);
    r
}

/// A decoded MessagePack value as the renderer reads it. Floats come as
/// their rendered text (`null` when not finite), map keys as their text, and
/// a string whose bytes are not UTF-8 as `Text(None)`.
pub enum DecodedValue {
    Nil,
    Boolean(bool),
    Unsigned(u64),
    Signed(i64),
    Float(String),
    Text(Option<String>),
    Binary(Vec<u8>),
    Array(Vec<DecodedValue>),
    Fields(Vec<(String, DecodedValue)>),
    Extension(i8, Vec<u8>),
}

/// How many items of a container of `total` are shown.
pub open spec fn shown_count(total: nat) -> nat {
    if total < MAX_CONTAINER_ITEMS {
        total
    } else {
        MAX_CONTAINER_ITEMS as nat
    }
}

/// `value_json`: the JSON of a decoded value found at `depth`. At
/// `MAX_VALUE_DEPTH` and below it only the depth marker; containers show
/// their first `MAX_CONTAINER_ITEMS` items at the next depth; binary and
/// extension payloads are analysed as binary fields at the next depth.
pub open spec fn value_rendered<C: Fn(&rmpv::Value) -> DecodedValue>(
    convert: C,
    v: DecodedValue,
    depth: nat,
    out: Seq<char>,
) -> bool
    decreases MAX_VALUE_DEPTH + 1 - depth,
{
    if depth >= MAX_VALUE_DEPTH {
        out == depth_limit_text()
    } else {
        match v {
            DecodedValue::Nil => out == "null"@,
            DecodedValue::Boolean(b) => out == bool_text(b),
            DecodedValue::Unsigned(n) => out == dec_text(n as nat),
            DecodedValue::Signed(n) => out == int_text(n as int),
            DecodedValue::Float(t) => out == t@,
            DecodedValue::Text(t) => out == string_value_text(
                match t {
                    Some(s) => s@,
                    None => Seq::<char>::empty(),
                },
            ),
            DecodedValue::Binary(b) => binary_rendered(convert, b@, depth + 1, out),
            DecodedValue::Array(items) => exists|shown: Seq<Seq<char>>|
                #![trigger array_text(items@.len(), shown)]
                out == array_text(items@.len(), shown) && shown.len() == shown_count(items@.len())
                    && forall|k: int|
                    0 <= k < shown.len() ==> value_rendered(convert, items@[k], depth + 1, #[trigger] shown[k]),
            DecodedValue::Fields(pairs) => exists|fields: Seq<(Seq<char>, Seq<char>)>|
                #![trigger map_text(pairs@.len(), fields)]
                out == map_text(pairs@.len(), fields) && fields.len() == shown_count(pairs@.len())
                    && forall|k: int|
                    0 <= k < fields.len() ==> (#[trigger] fields[k]).0 == pairs@[k].0@ && value_rendered(
                        convert,
                        pairs@[k].1,
                        depth + 1,
                        fields[k].1,
                    ),
            DecodedValue::Extension(kind, b) => exists|p: Seq<char>|
                #![trigger extension_text(kind, p)]
                out == extension_text(kind, p) && binary_rendered(convert, b@, depth + 1, p),
        }
    }
}

fn push_signed(out: &mut String, n: i64)
    ensures
        final(out)@ == old(out)@ + int_text(n as int),
{
    if n < 0 {
        out.append("-");
        let magnitude: u64 = ((-(n + 1)) as u64) + 1;
        push_dec(out, magnitude);
    } else {
        push_dec(out, n as u64);
    }
    assert(final(out)@ =~= old(out)@ + int_text(n as int));
}

fn array_value_json<C: Fn(&rmpv::Value) -> DecodedValue>(items: &Vec<DecodedValue>, depth: usize, convert: &C) -> (r: String)
    requires
        depth < MAX_VALUE_DEPTH,
        forall|x: rmpv::Value| #[trigger] convert.requires((&x,)),
    ensures
        value_rendered(*convert, DecodedValue::Array(*items), depth as nat, r@),
    decreases MAX_VALUE_DEPTH + 1 - depth, 0nat,
{
    let n = items.len();
    let count = if n < MAX_CONTAINER_ITEMS { n } else { MAX_CONTAINER_ITEMS };
    let mut shown: Vec<String> = Vec::new();
    let mut k: usize = 0;
    while k < count
        invariant
            n == items@.len(),
            count as nat == shown_count(n as nat),
            count <= n,
            k <= count,
            depth < MAX_VALUE_DEPTH,
            forall|x: rmpv::Value| #[trigger] convert.requires((&x,)),
            shown@.len() == k,
            forall|j: int| 0 <= j < k ==> value_rendered(*convert, items@[j], (depth + 1) as nat, #[trigger] shown@[j]@),
        decreases count - k,
    {
        let s = value_json(&items[k], depth + 1, convert);
        shown.push(s);
        k = k + 1;
    }
    let r = array_json(n, &shown);
    let ghost texts = shown@.map_values(|s: String| s@);
    assert(forall|j: int| 0 <= j < texts.len() ==> value_rendered(*convert, items@[j], (depth + 1) as nat, #[trigger] texts[j]));
    assert(r@ == array_text(items@.len(), texts));
    assert(texts.len() == shown_count(items@.len()));
    proof {
        let v = DecodedValue::Array(*items);
        assert(v->Array_0 == *items);
    }
    r
}

fn map_value_json<C: Fn(&rmpv::Value) -> DecodedValue>(
    pairs: &Vec<(String, DecodedValue)>,
    depth: usize,
    convert: &C,
) -> (r: String)
    requires
        depth < MAX_VALUE_DEPTH,
        forall|x: rmpv::Value| #[trigger] convert.requires((&x,)),
    ensures
        value_rendered(*convert, DecodedValue::Fields(*pairs), depth as nat, r@),
    decreases MAX_VALUE_DEPTH + 1 - depth, 0nat,
{
    let n = pairs.len();
    let count = if n < MAX_CONTAINER_ITEMS { n } else { MAX_CONTAINER_ITEMS };
    let mut fields: Vec<(String, String)> = Vec::new();
    let mut k: usize = 0;
    while k < count
        invariant
            n == pairs@.len(),
            count as nat == shown_count(n as nat),
            count <= n,
            k <= count,
            depth < MAX_VALUE_DEPTH,
            forall|x: rmpv::Value| #[trigger] convert.requires((&x,)),
            fields@.len() == k,
            forall|j: int|
                0 <= j < k ==> (#[trigger] fields@[j]).0@ == pairs@[j].0@ && value_rendered(
                    *convert,
                    pairs@[j].1,
                    (depth + 1) as nat,
                    fields@[j].1@,
                ),
        decreases count - k,
    {
        let mut key = String::new();
        key.append(pairs[k].0.as_str());
        let s = value_json(&pairs[k].1, depth + 1, convert);
        fields.push((key, s));
        k = k + 1;
    }
    let r = map_json(n, &fields);
    let ghost texts = fields@.map_values(|f: (String, String)| (f.0@, f.1@));
    assert(forall|j: int|
        0 <= j < texts.len() ==> (#[trigger] texts[j]).0 == pairs@[j].0@ && value_rendered(
            *convert,
            pairs@[j].1,
            (depth + 1) as nat,
            texts[j].1,
        ));
    assert(r@ == map_text(pairs@.len(), texts));
    assert(texts.len() == shown_count(pairs@.len()));
    proof {
        let v = DecodedValue::Fields(*pairs);
        assert(v->Fields_0 == *pairs);
    }
    r
}

/// `value_json`: the JSON of a decoded value found at `depth`; MessagePack
/// values found in binary payloads are converted by `convert`.
pub fn value_json<C: Fn(&rmpv::Value) -> DecodedValue>(v: &DecodedValue, depth: usize, convert: &C) -> (r: String)
    requires
        forall|x: rmpv::Value| #[trigger] convert.requires((&x,)),
    ensures
        value_rendered(*convert, *v, depth as nat, r@),
    decreases MAX_VALUE_DEPTH + 1 - depth, 1nat,
{
    if depth >= MAX_VALUE_DEPTH {
        return depth_limit_json();
    }
    let mut r = String::new();
    match v {
        DecodedValue::Nil => {
            r.append("null");
        },
        DecodedValue::Boolean(b) => {
            push_bool(&mut r, *b);
        },
        DecodedValue::Unsigned(n) => {
            push_dec(&mut r, *n);
        },
        DecodedValue::Signed(n) => {
            push_signed(&mut r, *n);
        },
        DecodedValue::Float(t) => {
            r.append(t.as_str());
        },
        DecodedValue::Text(t) => {
            match t {
                Some(s) => {
                    return string_value_json(s.as_str());
                },
                None => {
                    let empty = String::new();
                    return string_value_json(empty.as_str());
                },
            }
        },
        DecodedValue::Binary(b) => {
            return binary_json(b.as_slice(), depth + 1, convert);
        },
        DecodedValue::Array(items) => {
            return array_value_json(items, depth, convert);
        },
        DecodedValue::Fields(pairs) => {
            return map_value_json(pairs, depth, convert);
        },
        DecodedValue::Extension(kind, b) => {
            let p = binary_json(b.as_slice(), depth + 1, convert);
            let e = extension_json(*kind, p.as_str());
            assert(e@ == extension_text(*kind, p@));
            return e;
        },
    }
    r
}

} // verus!

verus! {

/// The reply part for undecodable bytes, from the rendered finding lists.
pub open spec fn unknown_payload_parts(
    bytes: Seq<u8>,
    source_stage: Seq<char>,
    strings: Seq<char>,
    routes: Seq<char>,
    classes: Seq<char>,
) -> Seq<char> {
    let preview = crate::order::first_n(bytes, MAX_HEX_PREVIEW as nat);
    r#"{"source_stage":""#@ + source_stage
        + r#"","confidence":"heuristic_candidate","codec":"unknown","decoded":false,"size":"#@
        + dec_text(bytes.len()) + r#","raw_inline":false,"hex_preview":""#@ + hex_bytes(preview)
        + r#"","hex_preview_truncated":"#@ + bool_text(bytes.len() > preview.len())
        + r#","byte_pattern":"#@ + byte_pattern_text(bytes) + r#","findings":{"strings":["#@
        + strings + r#"],"route_candidates":["#@ + routes + r#"],"class_name_candidates":["#@
        + classes
        + r#"]},"hint":"source stage is metadata, not a parsing prohibition; use raw capture for complete bytes"}"#@
}

/// The reply part for undecodable bytes: size, a hex preview, the byte
/// pattern and the printable findings; presented as a heuristic candidate,
/// never as decoded.
pub open spec fn unknown_payload_text(bytes: Seq<u8>, source_stage: Seq<char>) -> Seq<char> {
    let f = crate::findings::findings_of(bytes);
    unknown_payload_parts(
        bytes,
        source_stage,
        string_array_text(f.0),
        string_array_text(f.1),
        string_array_text(f.2),
    )
}

/// `analyze_payload`: empty bytes; else the MessagePack value they hold
/// (`decoded`: the probe's offset and rendered value); else their UTF-8 text;
/// else the undecodable summary.
pub open spec fn analysis_text(
    bytes: Seq<u8>,
    source_stage: Seq<char>,
    confidence: Seq<char>,
    decoded: Option<(nat, Seq<char>)>,
) -> Seq<char> {
    let head = r#"{"source_stage":""#@ + source_stage + r#"","confidence":""#@ + confidence;
    if bytes.len() == 0 {
        head + r#"","codec":"empty","decoded":true,"value":null}"#@
    } else if decoded is Some {
        head + r#"","codec":"messagepack","decoded":true,"prefix_bytes":"#@ + dec_text(
            decoded.unwrap().0,
        ) + r#","value":"#@ + decoded.unwrap().1 + "}"@
    } else if valid_utf8(bytes) {
        let b = bounded(decode_utf8(bytes), MAX_STRING_CHARS as nat);
        head + r#"","codec":"utf8","decoded":true,"value":"#@ + quoted(b.0) + r#","truncated":"#@
            + bool_text(b.1) + "}"@
    } else {
        unknown_payload_text(bytes, source_stage)
    }
}

fn push_unknown_parts(out: &mut String, bytes: &[u8], source_stage: &str, strings: &str, routes: &str, classes: &str)
    ensures
        final(out)@ == old(out)@ + unknown_payload_parts(bytes@, source_stage@, strings@, routes@, classes@),
{
    let preview_len = if bytes.len() <= MAX_HEX_PREVIEW { bytes.len() } else { MAX_HEX_PREVIEW };
    let preview = &bytes[0..preview_len];
    assert(preview@ =~= crate::order::first_n(bytes@, MAX_HEX_PREVIEW as nat));
    let pattern = byte_pattern_json(bytes);
    out.append(r#"{"source_stage":""#);
    out.append(source_stage);
    out.append(r#"","confidence":"heuristic_candidate","codec":"unknown","decoded":false,"size":"#);
    push_usize(out, bytes.len());
    out.append(r#","raw_inline":false,"hex_preview":""#);
    push_hex_bytes(out, preview);
    out.append(r#"","hex_preview_truncated":"#);
    push_bool(out, bytes.len() > preview_len);
    out.append(r#","byte_pattern":"#);
    out.append(pattern.as_str());
    out.append(r#","findings":{"strings":["#);
    out.append(strings);
    out.append(r#"],"route_candidates":["#);
    out.append(routes);
    out.append(r#"],"class_name_candidates":["#);
    out.append(classes);
    out.append(r#"]},"hint":"source stage is metadata, not a parsing prohibition; use raw capture for complete bytes"}"#);
    assert(final(out)@ =~= old(out)@ + unknown_payload_parts(bytes@, source_stage@, strings@, routes@, classes@));
}

fn push_unknown_payload(out: &mut String, bytes: &[u8], source_stage: &str)
    ensures
        final(out)@ == old(out)@ + unknown_payload_text(bytes@, source_stage@),
{
    let (strings, routes, classes) = crate::findings::printable_findings(bytes);
    let s = string_array_json(strings.as_slice());
    let rt = string_array_json(routes.as_slice());
    let c = string_array_json(classes.as_slice());
    push_unknown_parts(out, bytes, source_stage, s.as_str(), rt.as_str(), c.as_str());
}

/// `analyze_payload` with `convert` turning the MessagePack value found in
/// the bytes into a `DecodedValue`, shown as `value_json` renders it at
/// depth 0.
pub open spec fn analysis_rendered<C: Fn(&rmpv::Value) -> DecodedValue>(
    convert: C,
    bytes: Seq<u8>,
    source_stage: Seq<char>,
    confidence: Seq<char>,
    out: Seq<char>,
) -> bool {
    if messagepack_offset(bytes, true) is Some {
        let o = messagepack_offset(bytes, true).unwrap();
        exists|m: DecodedValue, t: Seq<char>|
            #![trigger convert.ensures((&messagepack_value_at(bytes, o),), m), analysis_text(bytes, source_stage, confidence, Some((o as nat, t)))]
            convert.ensures((&messagepack_value_at(bytes, o),), m) && value_rendered(convert, m, 0, t)
                && out == analysis_text(bytes, source_stage, confidence, Some((o as nat, t)))
    } else {
        out == analysis_text(bytes, source_stage, confidence, None)
    }
}

/// `analyze_payload`: the layered analysis of one captured payload; a
/// MessagePack value found in it is converted by `convert` and rendered by
/// `value_json`.
pub fn analyze_payload<C: Fn(&rmpv::Value) -> DecodedValue>(
    bytes: &[u8],
    source_stage: &str,
    confidence: &str,
    convert: &C,
) -> (r: String)
    requires
        forall|x: rmpv::Value| #[trigger] convert.requires((&x,)),
    ensures
        analysis_rendered(*convert, bytes@, source_stage@, confidence@, r@),
{
    let mut r = String::new();
    if bytes.len() == 0 {
        r.append(r#"{"source_stage":""#);
        r.append(source_stage);
        r.append(r#"","confidence":""#);
        r.append(confidence);
        r.append(r#"","codec":"empty","decoded":true,"value":null}"#);
        return r;
    }
    match decode_messagepack(bytes, true) {
        Some((prefix, value)) => {
            let m = convert(&value);
            let text = value_json(&m, 0, convert);
            r.append(r#"{"source_stage":""#);
            r.append(source_stage);
            r.append(r#"","confidence":""#);
            r.append(confidence);
            r.append(r#"","codec":"messagepack","decoded":true,"prefix_bytes":"#);
            push_usize(&mut r, prefix);
            r.append(r#","value":"#);
            r.append(text.as_str());
            r.append("}");
            proof {
                let o = messagepack_offset(bytes@, true).unwrap();
                assert(r@ == analysis_text(bytes@, source_stage@, confidence@, Some((o as nat, text@))));
                assert(convert.ensures((&messagepack_value_at(bytes@, o),), m));
            }
            return r;
        },
        None => {},
    }
    match utf8_text(bytes) {
        Some(text) => {
            let (b, truncated) = bounded_text(text, MAX_STRING_CHARS);
            r.append(r#"{"source_stage":""#);
            r.append(source_stage);
            r.append(r#"","confidence":""#);
            r.append(confidence);
            r.append(r#"","codec":"utf8","decoded":true,"value":"#);
            push_quoted_str(&mut r, b.as_str());
            r.append(r#","truncated":"#);
            push_bool(&mut r, truncated);
            r.append("}");
            return r;
        },
        None => {},
    }
    push_unknown_payload(&mut r, bytes, source_stage);
    r
}

} // verus!

verus! {

/// The ids of captured requests to sign-up routes.
pub open spec fn signup_ids(reqs: Seq<CapturedRequest>) -> Set<u64>
    decreases reqs.len(),
{
    if reqs.len() == 0 {
        Set::empty()
    } else if signup_url(reqs.last().url@) {
        signup_ids(reqs.drop_last()).insert(reqs.last().request_id)
    } else {
        signup_ids(reqs.drop_last())
    }
}

/// The sign-up request ids reported: the `MAX_RECORDS` highest, increasing.
pub open spec fn signup_record_ids(reqs: Seq<CapturedRequest>) -> Seq<u64> {
    last_n(sorted_elements(signup_ids(reqs), u64_order()), MAX_RECORDS as nat)
}

pub proof fn lemma_signup_ids_have_requests(reqs: Seq<CapturedRequest>, id: u64)
    requires
        signup_ids(reqs).contains(id),
    ensures
        last_request_index(reqs, id) is Some,
    decreases reqs.len(),
{
    if reqs.last().request_id != id {
        lemma_signup_ids_have_requests(reqs.drop_last(), id);
    }
}

/// Where the data of one reported sign-up record is found.
pub struct SignupRecordPlan {
    pub request_id: u64,
    pub request_index: usize,
    pub response_index: Option<usize>,
}

/// `plan` names, for each reported id, its latest request and latest
/// response.
pub open spec fn plan_fits(
    reqs: Seq<CapturedRequest>,
    resps: Seq<CapturedResponse>,
    plan: Seq<SignupRecordPlan>,
) -> bool {
    let ids = signup_record_ids(reqs);
    &&& plan.len() == ids.len()
    &&& forall|k: int|
        0 <= k < plan.len() ==> {
            &&& (#[trigger] plan[k]).request_id == ids[k]
            &&& last_request_index(reqs, ids[k]) == Some(plan[k].request_index as int)
            &&& match plan[k].response_index {
                Some(j) => last_response_index(resps, ids[k]) == Some(j as int),
                None => last_response_index(resps, ids[k]) is None,
            }
        }
}

/// The reported sign-up ids, in increasing order.
pub fn signup_request_ids(requests: &[CapturedRequest]) -> (r: Vec<u64>)
    ensures
        r@ == signup_record_ids(requests@),
        forall|m: int| 0 <= m < r@.len() ==> #[trigger] signup_ids(requests@).contains(r@[m]),
{
    let mut set: BTreeSet<u64> = BTreeSet::new();
    let mut i: usize = 0;
    assert(set@ =~= signup_ids(requests@.take(0)));
    while i < requests.len()
        invariant
            i <= requests@.len(),
            set@ == signup_ids(requests@.take(i as int)),
        decreases requests@.len() - i,
    {
        proof {
            assert(requests@.take(i + 1).drop_last() =~= requests@.take(i as int));
            assert(requests@.take(i + 1).last() == requests@[i as int]);
        }
        if is_signup_url(requests[i].url.as_str()) {
            set.insert(requests[i].request_id);
        }
        i = i + 1;
    }
    assert(requests@.take(requests@.len() as int) =~= requests@);
    let ids = ids_in_order(&set);
    proof {
        lemma_u64_order();
        lemma_signup_ids_finite(requests@);
        crate::order::lemma_sorted_elements(signup_ids(requests@), u64_order());
    }
    let start = if ids.len() > MAX_RECORDS { ids.len() - MAX_RECORDS } else { 0 };
    let mut r: Vec<u64> = Vec::new();
    let mut k = start;
    while k < ids.len()
        invariant
            start <= k <= ids@.len(),
            r@ =~= ids@.subrange(start as int, k as int),
        decreases ids@.len() - k,
    {
        r.push(ids[k]);
        k = k + 1;
    }
    assert(r@ =~= signup_record_ids(requests@));
    assert forall|m: int| 0 <= m < r@.len() implies #[trigger] signup_ids(requests@).contains(r@[m]) by {
        assert(r@[m] == ids@[start + m]);
        assert(ids@.to_set().contains(ids@[start + m]));
    }
    r
}

/// Where each reported sign-up record's request and response are found.
pub fn plan_signup_records(requests: &[CapturedRequest], responses: &[CapturedResponse]) -> (r: Vec<SignupRecordPlan>)
    ensures
        plan_fits(requests@, responses@, r@),
{
    let ids = signup_request_ids(requests);
    let mut plan: Vec<SignupRecordPlan> = Vec::new();
    let mut k: usize = 0;
    while k < ids.len()
        invariant
            k <= ids@.len(),
            ids@ == signup_record_ids(requests@),
            plan@.len() == k,
            forall|m: int| 0 <= m < ids@.len() ==> #[trigger] signup_ids(requests@).contains(ids@[m]),
            forall|m: int|
                0 <= m < k ==> {
                    &&& (#[trigger] plan@[m]).request_id == ids@[m]
                    &&& last_request_index(requests@, ids@[m]) == Some(plan@[m].request_index as int)
                    &&& match plan@[m].response_index {
                        Some(j) => last_response_index(responses@, ids@[m]) == Some(j as int),
                        None => last_response_index(responses@, ids@[m]) is None,
                    }
                },
        decreases ids@.len() - k,
    {
        let id = ids[k];
        proof {
            lemma_signup_ids_have_requests(requests@, id);
        }
        let request_index = match find_last_request(requests, id) {
            Some(i) => i,
            None => {
                assert(false);
                0
            },
        };
        let response_index = find_last_response(responses, id);
        plan.push(SignupRecordPlan { request_id: id, request_index, response_index });
        k = k + 1;
    }
    plan
}

} // verus!

verus! {

/// The request half of a sign-up record.
pub open spec fn record_head(id: u64, url: Seq<char>, method: Seq<char>, size: nat, analysis: Seq<char>) -> Seq<char> {
    r#"{"request_id":"#@ + dec_text(id as nat) + r#","url":"#@ + quoted(url) + r#","method":"#@
        + quoted(method) + r#","request_size":"#@ + dec_text(size) + r#","request":"#@ + analysis
}

/// The response half of a sign-up record.
pub open spec fn record_tail(size: nat, analysis: Seq<char>) -> Seq<char> {
    r#","response_size":"#@ + dec_text(size) + r#","response":"#@ + analysis + "}"@
}

/// One sign-up record: the latest request with the id, its analysis, and
/// the latest response's size and analysis (`null` when none).
pub open spec fn record_text(
    reqs: Seq<CapturedRequest>,
    resps: Seq<CapturedResponse>,
    id: u64,
    request_analysis: Seq<char>,
    response_analysis: Seq<char>,
) -> Seq<char> {
    let req = reqs[last_request_index(reqs, id).unwrap()];
    let resp = last_response_index(resps, id);
    record_head(id, req.url@, req.method@, req.body@.len(), request_analysis) + record_tail(
        match resp {
            Some(j) => resps[j].body@.len(),
            None => 0,
        },
        if resp is Some {
            response_analysis
        } else {
            "null"@
        },
    )
}

/// The fixed head of the sign-up reply.
pub open spec fn signup_head() -> Seq<char> {
    r#"{"ok":true,"schema_version":2,"mode":"provenance_aware_layered_analysis","filter":["pre_signup","signup"],"source_hooks":["HttpHelper.CompressRequest:input","HttpHelper.DecompressResponse:output","WWWRequest.Post:correlation"],"policy":{"stage_is_metadata_not_prohibition":true,"wire_analysis_allowed":true,"nested_payload_analysis":true,"unknown_payloads_are_not_presented_as_plaintext":true,"raw_payload_omitted_from_compact_view":true},"raw_payload_endpoint":"/api/sniff/metadata","count":"#@
}

/// The sign-up reply, given the analyses (request, response) of the reported
/// records in order.
pub open spec fn signup_json(
    reqs: Seq<CapturedRequest>,
    resps: Seq<CapturedResponse>,
    analyses: Seq<(Seq<char>, Seq<char>)>,
) -> Seq<char> {
    let ids = signup_record_ids(reqs);
    let records = Seq::new(
        ids.len(),
        |k: int| record_text(reqs, resps, ids[k], analyses[k].0, analyses[k].1),
    );
    signup_head() + dec_text(ids.len()) + r#","records":["#@ + comma_join(records) + "]}"@
}

/// `analyses` are those of the reported records, rendered through `convert`: of
/// the latest request's payload at stage `request_plain` and, where a
/// response was captured, of the latest response's payload at stage
/// `response_plain`, both with confidence `verified_plaintext_boundary`.
pub open spec fn analyses_fit<C: Fn(&rmpv::Value) -> DecodedValue>(
    convert: C,
    reqs: Seq<CapturedRequest>,
    resps: Seq<CapturedResponse>,
    analyses: Seq<(Seq<char>, Seq<char>)>,
) -> bool {
    let ids = signup_record_ids(reqs);
    &&& analyses.len() == ids.len()
    &&& forall|k: int|
        0 <= k < ids.len() ==> {
            &&& analysis_rendered(
                convert,
                reqs[last_request_index(reqs, ids[k]).unwrap()].body@,
                "request_plain"@,
                "verified_plaintext_boundary"@,
                (#[trigger] analyses[k]).0,
            )
            &&& (last_response_index(resps, ids[k]) matches Some(j) ==> analysis_rendered(
                convert,
                resps[j].body@,
                "response_plain"@,
                "verified_plaintext_boundary"@,
                analyses[k].1,
            ))
        }
}

fn push_record_head(out: &mut String, id: u64, url: &str, method: &str, size: usize, analysis: &str)
    ensures
        final(out)@ == old(out)@ + record_head(id, url@, method@, size as nat, analysis@),
{
    out.append(r#"{"request_id":"#);
    push_dec(out, id);
    out.append(r#","url":"#);
    push_quoted_str(out, url);
    out.append(r#","method":"#);
    push_quoted_str(out, method);
    out.append(r#","request_size":"#);
    push_usize(out, size);
    out.append(r#","request":"#);
    out.append(analysis);
    assert(final(out)@ =~= old(out)@ + record_head(id, url@, method@, size as nat, analysis@));
}

fn push_record_tail(out: &mut String, size: usize, analysis: &str)
    ensures
        final(out)@ == old(out)@ + record_tail(size as nat, analysis@),
{
    out.append(r#","response_size":"#);
    push_usize(out, size);
    out.append(r#","response":"#);
    out.append(analysis);
    out.append("}");
    assert(final(out)@ =~= old(out)@ + record_tail(size as nat, analysis@));
}

fn push_record(
    out: &mut String,
    requests: &[CapturedRequest],
    responses: &[CapturedResponse],
    entry: &SignupRecordPlan,
    request_analysis: &str,
    response_analysis: &str,
)
    requires
        last_request_index(requests@, entry.request_id) == Some(entry.request_index as int),
        match entry.response_index {
            Some(j) => last_response_index(responses@, entry.request_id) == Some(j as int),
            None => last_response_index(responses@, entry.request_id) is None,
        },
    ensures
        final(out)@ == old(out)@ + record_text(
            requests@,
            responses@,
            entry.request_id,
            request_analysis@,
            response_analysis@,
        ),
{
    proof {
        lemma_last_request_index(requests@, entry.request_id);
        lemma_last_response_index(responses@, entry.request_id);
    }
    let req = &requests[entry.request_index];
    push_record_head(out, entry.request_id, req.url.as_str(), req.method.as_str(), req.body.len(),
        request_analysis);
    match entry.response_index {
        Some(j) => {
            push_record_tail(out, responses[j].body.len(), response_analysis);
        },
        None => {
            push_record_tail(out, 0, "null");
        },
    }
    assert(final(out)@ =~= old(out)@ + record_text(
        requests@,
        responses@,
        entry.request_id,
        request_analysis@,
        response_analysis@,
    ));
}

/// The analyses of one planned record: of its request payload, and of its
/// response payload where one was captured (else empty).
fn analyze_record<C: Fn(&rmpv::Value) -> DecodedValue>(
    requests: &[CapturedRequest],
    responses: &[CapturedResponse],
    entry: &SignupRecordPlan,
    convert: &C,
) -> (r: (String, String))
    requires
        forall|x: rmpv::Value| #[trigger] convert.requires((&x,)),
        last_request_index(requests@, entry.request_id) == Some(entry.request_index as int),
        match entry.response_index {
            Some(j) => last_response_index(responses@, entry.request_id) == Some(j as int),
            None => last_response_index(responses@, entry.request_id) is None,
        },
    ensures
        analysis_rendered(
            *convert,
            requests@[entry.request_index as int].body@,
            "request_plain"@,
            "verified_plaintext_boundary"@,
            r.0@,
        ),
        entry.response_index matches Some(j) ==> analysis_rendered(
            *convert,
            responses@[j as int].body@,
            "response_plain"@,
            "verified_plaintext_boundary"@,
            r.1@,
        ),
{
    proof {
        lemma_last_request_index(requests@, entry.request_id);
        lemma_last_response_index(responses@, entry.request_id);
    }
    let request = analyze_payload(
        requests[entry.request_index].body.as_slice(),
        "request_plain",
        "verified_plaintext_boundary",
        convert,
    );
    let response = match entry.response_index {
        Some(j) => analyze_payload(
            responses[j].body.as_slice(),
            "response_plain",
            "verified_plaintext_boundary",
            convert,
        ),
        None => String::new(),
    };
    (request, response)
}

/// `endpoint`: the reported sign-up requests (the `MAX_RECORDS` highest ids
/// of requests whose path names a sign-up route), each with its latest
/// request, latest response and their payload analyses, MessagePack values
/// rendered through `convert`.
pub fn endpoint<C: Fn(&rmpv::Value) -> DecodedValue>(
    requests: &[CapturedRequest],
    responses: &[CapturedResponse],
    convert: &C,
) -> (r: String)
    requires
        forall|x: rmpv::Value| #[trigger] convert.requires((&x,)),
    ensures
        exists|analyses: Seq<(Seq<char>, Seq<char>)>|
            analyses_fit(*convert, requests@, responses@, analyses) && r@ == #[trigger] signup_json(
                requests@,
                responses@,
                analyses,
            ),
{
    let plan = plan_signup_records(requests, responses);
    let ghost ids = signup_record_ids(requests@);
    let ghost mut analyses: Seq<(Seq<char>, Seq<char>)> = Seq::empty();
    let mut body = String::new();
    let mut k: usize = 0;
    while k < plan.len()
        invariant
            forall|x: rmpv::Value| #[trigger] convert.requires((&x,)),
            plan_fits(requests@, responses@, plan@),
            ids == signup_record_ids(requests@),
            k <= plan@.len(),
            analyses.len() == k,
            forall|m: int|
                0 <= m < k ==> {
                    &&& analysis_rendered(
                        *convert,
                        requests@[last_request_index(requests@, ids[m]).unwrap()].body@,
                        "request_plain"@,
                        "verified_plaintext_boundary"@,
                        (#[trigger] analyses[m]).0,
                    )
                    &&& (last_response_index(responses@, ids[m]) matches Some(j) ==> analysis_rendered(
                        *convert,
                        responses@[j].body@,
                        "response_plain"@,
                        "verified_plaintext_boundary"@,
                        analyses[m].1,
                    ))
                },
            body@ == comma_join(
                Seq::new(k as nat, |m: int| record_text(requests@, responses@, ids[m], analyses[m].0, analyses[m].1)),
            ),
        decreases plan@.len() - k,
    {
        let ghost before = Seq::new(
            k as nat,
            |m: int| record_text(requests@, responses@, ids[m], analyses[m].0, analyses[m].1),
        );
        assert(plan@[k as int].request_id == ids[k as int]);
        let (request_analysis, response_analysis) = analyze_record(requests, responses, &plan[k], convert);
        proof {
            analyses = analyses.push((request_analysis@, response_analysis@));
        }
        let ghost after = Seq::new(
            (k + 1) as nat,
            |m: int| record_text(requests@, responses@, ids[m], analyses[m].0, analyses[m].1),
        );
        proof {
            assert(before =~= after.take(k as int));
            lemma_comma_join_push(before, after[k as int]);
            assert(before.push(after[k as int]) =~= after);
        }
        if k > 0 {
            body.append(",");
        }
        push_record(&mut body, requests, responses, &plan[k], request_analysis.as_str(), response_analysis.as_str());
        k = k + 1;
    }
    let ghost records = Seq::new(
        ids.len(),
        |m: int| record_text(requests@, responses@, ids[m], analyses[m].0, analyses[m].1),
    );
    assert(records =~= Seq::new(
        k as nat,
        |m: int| record_text(requests@, responses@, ids[m], analyses[m].0, analyses[m].1),
    ));
    let mut r = String::new();
    r.append(r#"{"ok":true,"schema_version":2,"mode":"provenance_aware_layered_analysis","filter":["pre_signup","signup"],"source_hooks":["HttpHelper.CompressRequest:input","HttpHelper.DecompressResponse:output","WWWRequest.Post:correlation"],"policy":{"stage_is_metadata_not_prohibition":true,"wire_analysis_allowed":true,"nested_payload_analysis":true,"unknown_payloads_are_not_presented_as_plaintext":true,"raw_payload_omitted_from_compact_view":true},"raw_payload_endpoint":"/api/sniff/metadata","count":"#);
    push_usize(&mut r, plan.len());
    r.append(r#","records":["#);
    r.append(body.as_str());
    r.append("]}");
    assert(r@ =~= signup_json(requests@, responses@, analyses));
    assert(analyses_fit(*convert, requests@, responses@, analyses));
    r
}

} // verus!

verus! {

/// At most `MAX_RECORDS` sign-up records are reported, their ids strictly
/// increasing, each the id of a captured request to a sign-up route, so
/// each has a latest request.
pub proof fn lemma_signup_record_ids(reqs: Seq<CapturedRequest>)
    ensures
        signup_record_ids(reqs).len() <= MAX_RECORDS,
        sorted_by(signup_record_ids(reqs), u64_order()),
        forall|k: int| 0 <= k < signup_record_ids(reqs).len() ==> signup_ids(reqs).contains(#[trigger] signup_record_ids(reqs)[k]),
        forall|k: int| 0 <= k < signup_record_ids(reqs).len() ==> last_request_index(reqs, #[trigger] signup_record_ids(reqs)[k]) is Some,
{
    lemma_u64_order();
    lemma_signup_ids_finite(reqs);
    crate::order::lemma_sorted_elements(signup_ids(reqs), u64_order());
    let s = sorted_elements(signup_ids(reqs), u64_order());
    let ids = signup_record_ids(reqs);
    let start: int = if s.len() > MAX_RECORDS { s.len() - MAX_RECORDS } else { 0 };
    assert forall|k: int| 0 <= k < ids.len() implies #[trigger] ids[k] == s[start + k] by {}
    assert forall|k: int| 0 <= k < ids.len() implies signup_ids(reqs).contains(#[trigger] ids[k]) && last_request_index(reqs, ids[k]) is Some by {
        assert(ids[k] == s[start + k]);
        assert(s.to_set().contains(s[start + k]));
        lemma_signup_ids_have_requests(reqs, ids[k]);
    }
    assert forall|i: int, j: int| 0 <= i < j < ids.len() implies #[trigger] u64_order()(ids[i], ids[j]) by {
        assert(ids[i] == s[start + i]);
        assert(ids[j] == s[start + j]);
    }
}

proof fn lemma_signup_ids_finite(reqs: Seq<CapturedRequest>)
    ensures
        signup_ids(reqs).finite(),
    decreases reqs.len(),
{
    if reqs.len() > 0 {
        lemma_signup_ids_finite(reqs.drop_last());
    }
}

/// A found MessagePack value starts within the probe window (at offset 0
/// without probing) and before the end of the bytes.
pub proof fn lemma_messagepack_offset_bounds(bytes: Seq<u8>, prefix_probe: bool)
    ensures
        messagepack_offset(bytes, prefix_probe) matches Some(o) ==> 0 <= o <= probe_limit(
            bytes.len(),
            prefix_probe,
        ) && o < bytes.len() && decodes_rest_at(bytes, o),
        !prefix_probe ==> (messagepack_offset(bytes, prefix_probe) matches Some(o) ==> o == 0),
        messagepack_offset(bytes, prefix_probe) matches Some(o) ==> o <= MAX_PREFIX_PROBE,
{
    if bytes.len() > 0 && bytes.len() <= MAX_DECODE_BYTES {
        lemma_first_decodable(bytes, 0, probe_limit(bytes.len(), prefix_probe) as int);
    }
}

proof fn lemma_first_decodable(bytes: Seq<u8>, o: int, limit: int)
    requires
        0 <= o,
    ensures
        first_decodable(bytes, o, limit) matches Some(r) ==> o <= r <= limit && decodes_rest_at(bytes, r),
    decreases limit + 1 - o,
{
    if o <= limit && !decodes_rest_at(bytes, o) {
        lemma_first_decodable(bytes, o + 1, limit);
    }
}

/// Hex encoding takes two characters per byte.
pub proof fn lemma_hex_length(bytes: Seq<u8>)
    ensures
        hex_bytes(bytes).len() == 2 * bytes.len(),
    decreases bytes.len(),
{
    if bytes.len() > 0 {
        lemma_hex_length(bytes.drop_last());
    }
}


/// A payload of text is reported as a JSON string: when the bytes are
/// non-empty valid UTF-8 and hold no MessagePack value at any probed offset,
/// the reply's value is a quote, the JSON escape of the (bounded) decoded
/// text and a quote, and that escape holds no raw control character and no
/// quote without a backslash before it.
pub proof fn lemma_text_payload_is_json_string<C: Fn(&rmpv::Value) -> DecodedValue>(
    convert: C,
    bytes: Seq<u8>,
    source_stage: Seq<char>,
    confidence: Seq<char>,
    out: Seq<char>,
)
    requires
        bytes.len() > 0,
        valid_utf8(bytes),
        messagepack_offset(bytes, true) is None,
        analysis_rendered(convert, bytes, source_stage, confidence, out),
    ensures
        ({
            let b = bounded(decode_utf8(bytes), MAX_STRING_CHARS as nat);
            let e = crate::text::json_escaped(b.0);
            &&& out == r#"{"source_stage":""#@ + source_stage + r#"","confidence":""#@ + confidence
                + r#"","codec":"utf8","decoded":true,"value":"#@ + "\""@ + e + "\""@
                + r#","truncated":"#@ + (if b.1 {
                "true"@
            } else {
                "false"@
            }) + "}"@
            &&& forall|i: int| 0 <= i < e.len() ==> (#[trigger] e[i] as u32) >= 0x20
            &&& forall|i: int| 0 <= i < e.len() && #[trigger] e[i] == '"' ==> i > 0 && e[i - 1] == '\\'
        }),
{
    let b = bounded(decode_utf8(bytes), MAX_STRING_CHARS as nat);
    crate::text::lemma_escaped_is_json_safe(b.0);
    let e = crate::text::json_escaped(b.0);
    assert(out =~= r#"{"source_stage":""#@ + source_stage + r#"","confidence":""#@ + confidence
        + r#"","codec":"utf8","decoded":true,"value":"#@ + "\""@ + e + "\""@
        + r#","truncated":"#@ + bool_text(b.1) + "}"@);
}

/// A binary field of text is shown as a JSON string: below
/// `MAX_VALUE_DEPTH`, when its bytes are valid UTF-8 and hold no MessagePack
/// value at any probed offset, the nested candidate's value is a quote, the
/// JSON escape of the (bounded) decoded text and a quote.
pub proof fn lemma_text_binary_is_json_string<C: Fn(&rmpv::Value) -> DecodedValue>(
    convert: C,
    bytes: Seq<u8>,
    depth: nat,
    out: Seq<char>,
)
    requires
        depth < MAX_VALUE_DEPTH,
        valid_utf8(bytes),
        messagepack_offset(bytes, true) is None,
        binary_rendered(convert, bytes, depth, out),
    ensures
        ({
            let b = bounded(decode_utf8(bytes), MAX_STRING_CHARS as nat);
            out == r#"{"type":"binary","length":"#@ + dec_text(bytes.len())
                + r#","nested_candidate":{"codec":"utf8","confidence":"heuristic_candidate","value":"#@
                + "\""@ + crate::text::json_escaped(b.0) + "\""@ + r#","truncated":"#@ + (if b.1 {
                "true"@
            } else {
                "false"@
            }) + "}}"@
        }),
{
    let b = bounded(decode_utf8(bytes), MAX_STRING_CHARS as nat);
    let e = crate::text::json_escaped(b.0);
    assert(out =~= r#"{"type":"binary","length":"#@ + dec_text(bytes.len())
        + r#","nested_candidate":{"codec":"utf8","confidence":"heuristic_candidate","value":"#@
        + "\""@ + e + "\""@ + r#","truncated":"#@ + bool_text(b.1) + "}}"@);
}


/// Sign-up routes over the literal fragments: a URL is a sign-up URL exactly
/// when its lower-cased path holds `pre_signup`, `pre-signup` or `/signup`.
pub proof fn lemma_signup_fragments(url: Seq<char>)
    ensures
        signup_url(url) <==> (has_sub(path_key(url), "pre_signup"@) || has_sub(path_key(url), "pre-signup"@)
            || has_sub(path_key(url), "/signup"@)),
{
}

} // verus!
