//! Character-level text helpers shared by the JSON renderers.
use vstd::prelude::*;

verus! {

/// Appends one character to a `String` (std `String::push`).
#[verifier::external_body]
pub(crate) fn push_char(s: &mut String, c: char)
    ensures
        final(s)@ == old(s)@.push(c),
{
    s.push(c);
}

/// The characters of a string slice, in order.
pub fn chars_of(s: &str) -> (v: Vec<char>)
    ensures
        v@ == s@,
{
    let mut v: Vec<char> = Vec::new();
    for c in it: s.chars()
        invariant
            v@ == it.seq().take(it.index() as int),
            it.seq() == s@,
    {
        v.push(c);
    }
    v
}

} // verus!

verus! {

/// The ASCII digit (`0`-`9`, then `a`-`f`) for a value below sixteen.
pub open spec fn hex_digit(d: nat) -> char {
    if d < 10 {
        (48 + d) as char
    } else {
        (87 + d) as char
    }
}

/// Decimal rendering of a natural number, as `{}` formats an unsigned integer.
pub open spec fn dec_text(n: nat) -> Seq<char>
    decreases n,
{
    if n < 10 {
        seq![hex_digit(n)]
    } else {
        dec_text(n / 10).push(hex_digit(n % 10))
    }
}

/// Lower-case hexadecimal rendering, as `{:x}` formats an unsigned integer.
pub open spec fn hex_text(n: nat) -> Seq<char>
    decreases n,
{
    if n < 16 {
        seq![hex_digit(n)]
    } else {
        hex_text(n / 16).push(hex_digit(n % 16))
    }
}

fn digit_char(d: u64) -> (c: char)
    requires
        d < 16,
    ensures
        c == hex_digit(d as nat),
{
    let b: u8 = d as u8;
    if b < 10 {
        (48u8 + b) as char
    } else {
        (87u8 + b) as char
    }
}

/// Appends the decimal digits of `n`.
pub fn push_dec(s: &mut String, n: u64)
    ensures
        final(s)@ == old(s)@ + dec_text(n as nat),
    decreases n,
{
    if n >= 10 {
        push_dec(s, n / 10);
    }
    push_char(s, digit_char(n % 10));
    proof {
        if n >= 10 {
            assert(old(s)@ + dec_text(n as nat) =~= old(s)@ + dec_text((n / 10) as nat) + seq![hex_digit((n % 10) as nat)]);
        } else {
            assert(old(s)@ + dec_text(n as nat) =~= old(s)@.push(hex_digit(n as nat)));
        }
    }
}

/// Appends the lower-case hexadecimal digits of `n`.
pub fn push_hex(s: &mut String, n: u64)
    ensures
        final(s)@ == old(s)@ + hex_text(n as nat),
    decreases n,
{
    if n >= 16 {
        push_hex(s, n / 16);
    }
    push_char(s, digit_char(n % 16));
    proof {
        if n >= 16 {
            assert(old(s)@ + hex_text(n as nat) =~= old(s)@ + hex_text((n / 16) as nat) + seq![hex_digit((n % 16) as nat)]);
        } else {
            assert(old(s)@ + hex_text(n as nat) =~= old(s)@.push(hex_digit(n as nat)));
        }
    }
}

} // verus!

verus! {

/// JSON string-body escape of one character: quote, backslash and the
/// control characters are escaped, everything else is kept.
pub open spec fn escape_char(c: char) -> Seq<char> {
    if c == '"' {
        seq!['\\', '"']
    } else if c == '\\' {
        seq!['\\', '\\']
    } else if c == '\n' {
        seq!['\\', 'n']
    } else if c == '\r' {
        seq!['\\', 'r']
    } else if c == '\t' {
        seq!['\\', 't']
    } else if (c as u32) < 0x20 {
        seq!['\\', 'u', '0', '0', hex_digit((c as u32 / 16) as nat), hex_digit((c as u32 % 16) as nat)]
    } else {
        seq![c]
    }
}

/// JSON string-body escape of a whole text.
pub open spec fn json_escaped(s: Seq<char>) -> Seq<char>
    decreases s.len(),
{
    if s.len() == 0 {
        Seq::empty()
    } else {
        json_escaped(s.drop_last()) + escape_char(s.last())
    }
}

/// Appends the escape of one character.
pub fn push_escaped_char(out: &mut String, c: char)
    ensures
        final(out)@ == old(out)@ + escape_char(c),
{
    if c == '"' {
        out.append("\\\"");
        proof { reveal_strlit("\\\""); }
    } else if c == '\\' {
        out.append("\\\\");
        proof { reveal_strlit("\\\\"); }
    } else if c == '\n' {
        out.append("\\n");
        proof { reveal_strlit("\\n"); }
    } else if c == '\r' {
        out.append("\\r");
        proof { reveal_strlit("\\r"); }
    } else if c == '\t' {
        out.append("\\t");
        proof { reveal_strlit("\\t"); }
    } else if (c as u32) < 0x20 {
        let code: u32 = c as u32;
        out.append("\\u00");
        proof { reveal_strlit("\\u00"); }
        push_char(out, digit_char((code / 16) as u64));
        push_char(out, digit_char((code % 16) as u64));
    } else {
        push_char(out, c);
    }
    assert(final(out)@ =~= old(out)@ + escape_char(c));
}

/// Appends the JSON string-body escape of `chars`.
pub fn push_escaped(out: &mut String, chars: &[char])
    ensures
        final(out)@ == old(out)@ + json_escaped(chars@),
{
    let ghost start = out@;
    let n = chars.len();
    let mut i: usize = 0;
    while i < n
        invariant
            n == chars@.len(),
            i <= n,
            out@ == start + json_escaped(chars@.take(i as int)),
        decreases n - i,
    {
        push_escaped_char(out, chars[i]);
        proof {
            assert(chars@.take(i + 1).drop_last() =~= chars@.take(i as int));
            assert(out@ =~= start + json_escaped(chars@.take(i + 1)));
        }
        i = i + 1;
    }
    assert(chars@.take(n as int) =~= chars@);
}

/// `json_escape`: the JSON string-body escape of a text.
pub fn json_escape(s: &str) -> (r: String)
    ensures
        r@ == json_escaped(s@),
{
    let chars = chars_of(s);
    let mut r = String::new();
    push_escaped(&mut r, chars.as_slice());
    assert(r@ =~= json_escaped(s@));
    r
}

} // verus!

verus! {

/// ASCII lower-casing of one character; other characters are kept.
pub open spec fn lower_char(c: char) -> char {
    if 'A' <= c && c <= 'Z' {
        ((c as u32) + 32) as char
    } else {
        c
    }
}

/// ASCII lower-casing of a text (`to_ascii_lowercase`).
pub open spec fn ascii_lower(s: Seq<char>) -> Seq<char> {
    Seq::new(s.len(), |i: int| lower_char(s[i]))
}

/// `needle` occurs in `hay` starting at index `i`.
pub open spec fn occurs_at(hay: Seq<char>, needle: Seq<char>, i: int) -> bool {
    0 <= i && i + needle.len() <= hay.len() && hay.subrange(i, i + needle.len()) == needle
}

/// `needle` occurs somewhere in `hay` (`str::contains`).
pub open spec fn has_sub(hay: Seq<char>, needle: Seq<char>) -> bool {
    exists|i: int| occurs_at(hay, needle, i)
}

/// The first `max` characters of `s`, and whether `s` was longer.
pub open spec fn bounded(s: Seq<char>, max: nat) -> (Seq<char>, bool) {
    if s.len() <= max {
        (s, false)
    } else {
        (s.take(max as int), true)
    }
}

/// ASCII lower-casing of a character sequence.
pub fn lower_chars(s: &[char]) -> (r: Vec<char>)
    ensures
        r@ == ascii_lower(s@),
{
    let mut r: Vec<char> = Vec::new();
    let n = s.len();
    let mut i: usize = 0;
    while i < n
        invariant
            n == s@.len(),
            i <= n,
            r@ =~= ascii_lower(s@).take(i as int),
        decreases n - i,
    {
        let c = s[i];
        let l: char = if 'A' <= c && c <= 'Z' {
            ((c as u8) + 32) as char
        } else {
            c
        };
        r.push(l);
        i = i + 1;
    }
    r
}

/// Whether `needle` occurs in `hay` at index `i`.
pub fn matches_at(hay: &[char], needle: &[char], i: usize) -> (b: bool)
    ensures
        b == occurs_at(hay@, needle@, i as int),
{
    if i > hay.len() || needle.len() > hay.len() - i {
        return false;
    }
    let mut j: usize = 0;
    while j < needle.len()
        invariant
            i + needle@.len() <= hay@.len(),
            i + needle.len() <= hay.len(),
            j <= needle@.len(),
            forall|k: int| 0 <= k < j ==> hay@[i + k] == needle@[k],
        decreases needle@.len() - j,
    {
        if hay[i + j] != needle[j] {
            assert(hay@.subrange(i as int, i + needle@.len())[j as int] != needle@[j as int]);
            return false;
        }
        j = j + 1;
    }
    assert(hay@.subrange(i as int, i + needle@.len()) =~= needle@);
    true
}

/// Whether `needle` occurs anywhere in `hay`.
pub fn contains_chars(hay: &[char], needle: &[char]) -> (b: bool)
    ensures
        b == has_sub(hay@, needle@),
{
    if needle.len() > hay.len() {
        return false;
    }
    if needle.len() == 0 {
        assert(hay@.subrange(0, 0) =~= needle@);
        assert(occurs_at(hay@, needle@, 0));
        return true;
    }
    let last = hay.len() - needle.len();
    let mut i: usize = 0;
    while i <= last
        invariant
            last == hay@.len() - needle@.len(),
            needle@.len() >= 1,
            last < hay.len(),
            i <= last + 1,
            forall|k: int| 0 <= k < i ==> !occurs_at(hay@, needle@, k),
        decreases last + 1 - i,
    {
        if matches_at(hay, needle, i) {
            return true;
        }
        i = i + 1;
    }
    false
}

/// `bounded_text`: the first `max_chars` characters of `value`, and whether
/// anything was cut off.
pub fn bounded_text(value: &str, max_chars: usize) -> (r: (String, bool))
    ensures
        r.0@ == bounded(value@, max_chars as nat).0,
        r.1 == bounded(value@, max_chars as nat).1,
{
    let chars = chars_of(value);
    let n = chars.len();
    let keep = if n <= max_chars { n } else { max_chars };
    let mut out = String::new();
    let mut i: usize = 0;
    while i < keep
        invariant
            keep <= n,
            n == chars@.len(),
            i <= keep,
            out@ =~= chars@.take(i as int),
        decreases keep - i,
    {
        push_char(&mut out, chars[i]);
        i = i + 1;
    }
    assert(out@ =~= bounded(value@, max_chars as nat).0);
    (out, n > max_chars)
}

} // verus!

verus! {

/// A bounded text is a prefix of the input of at most `max` characters;
/// it is cut exactly when the input is longer, and whole otherwise.
pub proof fn lemma_bounded_prefix(s: Seq<char>, max: nat)
    ensures
        bounded(s, max).0.len() <= max,
        bounded(s, max).0 == s.take(bounded(s, max).0.len() as int),
        bounded(s, max).1 <==> s.len() > max,
        !bounded(s, max).1 ==> bounded(s, max).0 == s,
{
    if s.len() <= max {
        assert(s.take(s.len() as int) =~= s);
    }
}

/// The escape of a text holds no raw control character, and every quote in
/// it is escaped by the backslash before it.
pub proof fn lemma_escaped_is_json_safe(s: Seq<char>)
    ensures
        forall|i: int| 0 <= i < json_escaped(s).len() ==> (#[trigger] json_escaped(s)[i] as u32) >= 0x20,
        forall|i: int| 0 <= i < json_escaped(s).len() && #[trigger] json_escaped(s)[i] == '"' ==> i > 0 && json_escaped(s)[i - 1] == '\\',
    decreases s.len(),
{
    if s.len() > 0 {
        let prev = json_escaped(s.drop_last());
        let e = escape_char(s.last());
        lemma_escaped_is_json_safe(s.drop_last());
        let c = s.last();
        assert(json_escaped(s) == prev + e);
        assert forall|k: int| 0 <= k < e.len() implies (#[trigger] e[k] as u32) >= 0x20 && (e[k] == '"' ==> k > 0 && e[k - 1] == '\\') by {
            if (c as u32) < 0x20 && c != '\n' && c != '\r' && c != '\t' {
                let hi = (c as u32 / 16) as nat;
                let lo = (c as u32 % 16) as nat;
                assert(((48 + hi) as char) as u32 == 48 + hi);
                if lo < 10 {
                    assert(((48 + lo) as char) as u32 == 48 + lo);
                } else {
                    assert(((87 + lo) as char) as u32 == 87 + lo);
                }
            }
        }
        assert forall|i: int| 0 <= i < json_escaped(s).len() implies (#[trigger] json_escaped(s)[i] as u32) >= 0x20 by {
            if i >= prev.len() {
                assert(json_escaped(s)[i] == e[i - prev.len()]);
            } else {
                assert(json_escaped(s)[i] == prev[i]);
            }
        }
        assert forall|i: int| 0 <= i < json_escaped(s).len() && #[trigger] json_escaped(s)[i] == '"' implies i > 0 && json_escaped(s)[i - 1] == '\\' by {
            if i >= prev.len() {
                let k = i - prev.len();
                assert(json_escaped(s)[i] == e[k]);
                assert(e[k] as u32 >= 0x20);
                if k > 0 {
                    assert(json_escaped(s)[i - 1] == e[k - 1]);
                }
            } else {
                assert(json_escaped(s)[i] == prev[i]);
                assert(json_escaped(s)[i - 1] == prev[i - 1]);
            }
        }
    }
}

} // verus!
