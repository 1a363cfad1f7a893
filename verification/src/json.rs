//! Pieces of JSON text: literals, numbers, booleans, quoted strings and
//! comma-separated lists.
use vstd::prelude::*;
use crate::text::{chars_of, dec_text, json_escaped, push_dec, push_escaped};

verus! {

/// `true` or `false`, as `{}` formats a `bool`.
pub open spec fn bool_text(b: bool) -> Seq<char> {
    if b {
        "true"@
    } else {
        "false"@
    }
}

/// The parts joined by commas (`join(",")`).
pub open spec fn comma_join(parts: Seq<Seq<char>>) -> Seq<char>
    decreases parts.len(),
{
    if parts.len() == 0 {
        Seq::empty()
    } else if parts.len() == 1 {
        parts[0]
    } else {
        comma_join(parts.drop_last()) + ","@ + parts.last()
    }
}

/// A JSON string literal holding `s`.
pub open spec fn quoted(s: Seq<char>) -> Seq<char> {
    "\""@ + json_escaped(s) + "\""@
}

/// Appends `b` as `true` or `false`.
pub fn push_bool(out: &mut String, b: bool)
    ensures
        final(out)@ == old(out)@ + bool_text(b),
{
    if b {
        out.append("true");
    } else {
        out.append("false");
    }
}

/// Appends the decimal digits of a `usize`.
pub fn push_usize(out: &mut String, n: usize)
    ensures
        final(out)@ == old(out)@ + dec_text(n as nat),
{
    push_dec(out, n as u64);
}

/// Appends `chars` as a JSON string literal.
pub fn push_quoted(out: &mut String, chars: &[char])
    ensures
        final(out)@ == old(out)@ + quoted(chars@),
{
    out.append("\"");
    push_escaped(out, chars);
    out.append("\"");
    assert(final(out)@ =~= old(out)@ + quoted(chars@));
}

/// Appends the JSON string literal holding `s`.
pub fn push_quoted_str(out: &mut String, s: &str)
    ensures
        final(out)@ == old(out)@ + quoted(s@),
{
    let chars = chars_of(s);
    push_quoted(out, chars.as_slice());
}

/// Joining one more part onto a list.
pub proof fn lemma_comma_join_push(parts: Seq<Seq<char>>, p: Seq<char>)
    ensures
        comma_join(parts.push(p)) == if parts.len() == 0 {
            p
        } else {
            comma_join(parts) + ","@ + p
        },
{
    assert(parts.push(p).drop_last() =~= parts);
    if parts.len() == 0 {
        assert(parts.push(p)[0] == p);
    }
}

/// Appends the comma-separated `parts`.
pub fn push_joined(out: &mut String, parts: &Vec<String>)
    ensures
        final(out)@ == old(out)@ + comma_join(parts@.map_values(|p: String| p@)),
{
    let ghost start = out@;
    let ghost views = parts@.map_values(|p: String| p@);
    let mut i: usize = 0;
    while i < parts.len()
        invariant
            i <= parts@.len(),
            views == parts@.map_values(|p: String| p@),
            out@ == start + comma_join(views.take(i as int)),
        decreases parts@.len() - i,
    {
        proof {
            lemma_comma_join_push(views.take(i as int), views[i as int]);
            assert(views.take(i as int).push(views[i as int]) =~= views.take(i + 1));
        }
        if i > 0 {
            out.append(",");
        }
        out.append(parts[i].as_str());
        i = i + 1;
    }
    assert(views.take(parts@.len() as int) =~= views);
}

} // verus!

verus! {

/// The error reply `{"ok":false,"error":"..."}`.
pub open spec fn error_json(message: Seq<char>) -> Seq<char> {
    "{\"ok\":false,\"error\":"@ + quoted(message) + "}"@
}

/// The error reply for `message`.
pub fn json_error(message: &str) -> (r: String)
    ensures
        r@ == error_json(message@),
{
    let mut r = String::new();
    r.append("{\"ok\":false,\"error\":");
    push_quoted_str(&mut r, message);
    r.append("}");
    r
}

/// The text held by a character vector, as a `String`.
pub fn string_of(chars: &[char]) -> (r: String)
    ensures
        r@ == chars@,
{
    let mut r = String::new();
    let mut i: usize = 0;
    while i < chars.len()
        invariant
            i <= chars@.len(),
            r@ =~= chars@.take(i as int),
        decreases chars@.len() - i,
    {
        crate::text::push_char(&mut r, chars[i]);
        i = i + 1;
    }
    assert(chars@.take(chars@.len() as int) =~= chars@);
    r
}

} // verus!
