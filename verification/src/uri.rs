//! Splitting request URLs: the path that routes are classified by, the
//! query parameters that endpoints read, and decimal parameter values.
use vstd::prelude::*;
use crate::text::{chars_of, occurs_at, push_char};

verus! {

/// Index of the first `c` in `s` at or after `i`, or `s.len()` if none.
pub open spec fn find_char(s: Seq<char>, c: char, i: int) -> int
    decreases s.len() - i,
{
    if i < 0 || i >= s.len() {
        s.len() as int
    } else if s[i] == c {
        i
    } else {
        find_char(s, c, i + 1)
    }
}

/// Index of the first `a` or `b` in `s` at or after `i`, or `s.len()`.
pub open spec fn find_either(s: Seq<char>, a: char, b: char, i: int) -> int
    decreases s.len() - i,
{
    if i < 0 || i >= s.len() {
        s.len() as int
    } else if s[i] == a || s[i] == b {
        i
    } else {
        find_either(s, a, b, i + 1)
    }
}

/// Index of the first occurrence of `n` in `s` at or after `i`, or `s.len()`.
pub open spec fn find_seq(s: Seq<char>, n: Seq<char>, i: int) -> int
    decreases s.len() - i,
{
    if i < 0 || i >= s.len() || i + n.len() > s.len() {
        s.len() as int
    } else if occurs_at(s, n, i) {
        i
    } else {
        find_seq(s, n, i + 1)
    }
}

pub proof fn lemma_find_char_bounds(s: Seq<char>, c: char, i: int)
    requires
        0 <= i,
    ensures
        i <= find_char(s, c, i) <= s.len() || find_char(s, c, i) == s.len(),
        0 <= find_char(s, c, i) <= s.len(),
        find_char(s, c, i) < s.len() ==> s[find_char(s, c, i)] == c,
    decreases s.len() - i,
{
    if i < s.len() && s[i] != c {
        lemma_find_char_bounds(s, c, i + 1);
    }
}

pub proof fn lemma_find_either_bounds(s: Seq<char>, a: char, b: char, i: int)
    requires
        0 <= i,
    ensures
        0 <= find_either(s, a, b, i) <= s.len(),
    decreases s.len() - i,
{
    if i < s.len() && s[i] != a && s[i] != b {
        lemma_find_either_bounds(s, a, b, i + 1);
    }
}

pub proof fn lemma_find_seq_bounds(s: Seq<char>, n: Seq<char>, i: int)
    requires
        0 <= i,
    ensures
        0 <= find_seq(s, n, i) <= s.len(),
        find_seq(s, n, i) < s.len() ==> find_seq(s, n, i) + n.len() <= s.len(),
    decreases s.len() - i,
{
    if i < s.len() && i + n.len() <= s.len() && !occurs_at(s, n, i) {
        lemma_find_seq_bounds(s, n, i + 1);
    }
}

/// The separator between a URL's scheme and its host.
pub open spec fn scheme_separator() -> Seq<char> {
    seq![':', '/', '/']
}

/// `sniff_path`: the path of a URL. The query and fragment are dropped; after
/// a `scheme://host` prefix the path starts at the next `/` (an absent path is
/// `/`); a text without a scheme is a path already.
pub open spec fn url_path(url: Seq<char>) -> Seq<char> {
    let base = url.take(find_either(url, '?', '#', 0));
    let k = find_seq(base, scheme_separator(), 0);
    if k < base.len() {
        let p = find_char(base, '/', k + 3);
        if p < base.len() {
            base.skip(p)
        } else {
            seq!['/']
        }
    } else {
        base
    }
}

/// The copy of `s[a..b]`.
pub fn copy_range(s: &[char], a: usize, b: usize) -> (r: Vec<char>)
    requires
        a <= b <= s@.len(),
    ensures
        r@ == s@.subrange(a as int, b as int),
{
    let mut r: Vec<char> = Vec::new();
    let mut i = a;
    while i < b
        invariant
            a <= i <= b,
            b <= s@.len(),
            r@ =~= s@.subrange(a as int, i as int),
        decreases b - i,
    {
        r.push(s[i]);
        i = i + 1;
    }
    r
}

/// Index of the first `c` in `s` at or after `from`, or `s.len()`.
pub fn find_char_from(s: &[char], c: char, from: usize) -> (r: usize)
    ensures
        r as int == find_char(s@, c, from as int),
{
    proof { lemma_find_char_bounds(s@, c, from as int); }
    if from >= s.len() {
        return s.len();
    }
    let mut i = from;
    while i < s.len()
        invariant
            from <= i <= s@.len(),
            find_char(s@, c, from as int) == find_char(s@, c, i as int),
        decreases s@.len() - i,
    {
        if s[i] == c {
            return i;
        }
        i = i + 1;
    }
    i
}

/// Index of the first `a` or `b` in `s`, or `s.len()`.
pub fn find_either_from(s: &[char], a: char, b: char) -> (r: usize)
    ensures
        r as int == find_either(s@, a, b, 0),
{
    let mut i: usize = 0;
    while i < s.len()
        invariant
            0 <= i <= s@.len(),
            find_either(s@, a, b, 0) == find_either(s@, a, b, i as int),
        decreases s@.len() - i,
    {
        if s[i] == a || s[i] == b {
            return i;
        }
        i = i + 1;
    }
    i
}

/// Index of the first `://` in `s`, or `s.len()`.
pub fn find_scheme_separator(s: &[char]) -> (r: usize)
    ensures
        r as int == find_seq(s@, scheme_separator(), 0),
{
    let mut i: usize = 0;
    while i < s.len() && s.len() - i >= 3
        invariant
            0 <= i <= s@.len(),
            find_seq(s@, scheme_separator(), 0) == find_seq(s@, scheme_separator(), i as int),
        decreases s@.len() - i,
    {
        if s[i] == ':' && s[i + 1] == '/' && s[i + 2] == '/' {
            assert(s@.subrange(i as int, i + 3) =~= scheme_separator());
            return i;
        }
        assert(!occurs_at(s@, scheme_separator(), i as int)) by {
            if occurs_at(s@, scheme_separator(), i as int) {
                assert(s@.subrange(i as int, i + 3)[0] == s@[i as int]);
                assert(s@.subrange(i as int, i + 3)[1] == s@[i + 1]);
                assert(s@.subrange(i as int, i + 3)[2] == s@[i + 2]);
            }
        }
        i = i + 1;
    }
    s.len()
}

/// `sniff_path` on characters.
pub fn path_chars(url: &[char]) -> (r: Vec<char>)
    ensures
        r@ == url_path(url@),
{
    let cut = find_either_from(url, '?', '#');
    proof { lemma_find_either_bounds(url@, '?', '#', 0); }
    let base = copy_range(url, 0, cut);
    assert(base@ =~= url@.take(cut as int));
    let k = find_scheme_separator(base.as_slice());
    proof { lemma_find_seq_bounds(base@, scheme_separator(), 0); }
    if k < base.len() {
        let p = find_char_from(base.as_slice(), '/', k + 3);
        proof { lemma_find_char_bounds(base@, '/', k + 3); }
        if p < base.len() {
            copy_range(base.as_slice(), p, base.len())
        } else {
            let mut r: Vec<char> = Vec::new();
            r.push('/');
            assert(r@ =~= seq!['/']);
            r
        }
    } else {
        base
    }
}

/// `sniff_path`: the path of a URL, as text.
pub fn sniff_path(url: &str) -> (r: String)
    ensures
        r@ == url_path(url@),
{
    let chars = chars_of(url);
    let p = path_chars(chars.as_slice());
    let mut r = String::new();
    let mut i: usize = 0;
    while i < p.len()
        invariant
            i <= p@.len(),
            r@ =~= p@.take(i as int),
        decreases p@.len() - i,
    {
        push_char(&mut r, p[i]);
        i = i + 1;
    }
    assert(p@.take(p@.len() as int) =~= p@);
    r
}

} // verus!

verus! {

/// The query of a URI: the text after the first `?`, up to a `#`.
pub open spec fn query_of(uri: Seq<char>) -> Seq<char> {
    let q = find_char(uri, '?', 0);
    if q < uri.len() {
        uri.subrange(q + 1, find_char(uri, '#', q + 1))
    } else {
        Seq::empty()
    }
}

/// The value of the first `key=value` pair of a query (pairs split on `&`,
/// key and value on the first `=`; a pair without `=` has an empty value).
pub open spec fn lookup_pair(q: Seq<char>, key: Seq<char>) -> Option<Seq<char>>
    decreases q.len(),
{
    let e = find_char(q, '&', 0);
    let seg = q.take(e);
    let eq = find_char(seg, '=', 0);
    if seg.take(eq) == key {
        Some(if eq < seg.len() { seg.skip(eq + 1) } else { Seq::empty() })
    } else if 0 <= e < q.len() {
        lookup_pair(q.skip(e + 1), key)
    } else {
        None
    }
}

/// The value of parameter `key` in the query of `uri`; empty when absent.
/// The reading is lenient: every query can be read, no query is rejected as
/// malformed, and values are taken as written (no percent-decoding).
pub open spec fn query_value(uri: Seq<char>, key: Seq<char>) -> Seq<char> {
    match lookup_pair(query_of(uri), key) {
        Some(v) => v,
        None => Seq::empty(),
    }
}

/// The value of the first pair named `key` in the query text `q`.
fn lookup_chars(q: &[char], key: &[char]) -> (r: Option<Vec<char>>)
    ensures
        match r {
            Some(v) => lookup_pair(q@, key@) == Some(v@),
            None => lookup_pair(q@, key@) is None,
        },
{
    let mut rest = copy_range(q, 0, q.len());
    assert(rest@ =~= q@);
    loop
        invariant
            lookup_pair(q@, key@) == lookup_pair(rest@, key@),
        decreases rest@.len(),
    {
        let e = find_char_from(rest.as_slice(), '&', 0);
        proof { lemma_find_char_bounds(rest@, '&', 0); }
        let seg = copy_range(rest.as_slice(), 0, e);
        assert(seg@ =~= rest@.take(e as int));
        let eq = find_char_from(seg.as_slice(), '=', 0);
        proof { lemma_find_char_bounds(seg@, '=', 0); }
        let name = copy_range(seg.as_slice(), 0, eq);
        assert(name@ =~= seg@.take(eq as int));
        if crate::order::text_equal(name.as_slice(), key) {
            if eq < seg.len() {
                let v = copy_range(seg.as_slice(), eq + 1, seg.len());
                assert(v@ =~= seg@.skip(eq + 1));
                return Some(v);
            } else {
                let v: Vec<char> = Vec::new();
                assert(v@ =~= Seq::<char>::empty());
                return Some(v);
            }
        }
        if e >= rest.len() {
            return None;
        }
        let next = copy_range(rest.as_slice(), e + 1, rest.len());
        assert(next@ =~= rest@.skip(e + 1));
        rest = next;
    }
}

/// The value of parameter `key` in the query of `uri`, as characters;
/// empty when the parameter is absent.
pub fn query_value_chars(uri: &[char], key: &[char]) -> (r: Vec<char>)
    ensures
        r@ == query_value(uri@, key@),
{
    let q = find_char_from(uri, '?', 0);
    proof { lemma_find_char_bounds(uri@, '?', 0); }
    let query = if q < uri.len() {
        let h = find_char_from(uri, '#', q + 1);
        proof { lemma_find_char_bounds(uri@, '#', q + 1); }
        copy_range(uri, q + 1, h)
    } else {
        Vec::new()
    };
    assert(query@ =~= query_of(uri@));
    match lookup_chars(query.as_slice(), key) {
        Some(v) => v,
        None => Vec::new(),
    }
}

/// The decimal digit value of `c`, if it is one.
pub open spec fn digit_value(c: char) -> Option<nat> {
    if '0' <= c && c <= '9' {
        Some((c as u32 - 48) as nat)
    } else {
        None
    }
}

/// All characters are decimal digits.
pub open spec fn all_digits(s: Seq<char>) -> bool {
    forall|i: int| 0 <= i < s.len() ==> #[trigger] digit_value(s[i]) is Some
}

/// The number that a string of decimal digits denotes.
pub open spec fn digits_value(s: Seq<char>) -> nat
    decreases s.len(),
{
    if s.len() == 0 {
        0
    } else {
        digits_value(s.drop_last()) * 10 + (s.last() as u32 - 48) as nat
    }
}

/// What `str::parse` reads from `s` as an unsigned number before range
/// checks: an optional leading `+` and at least one decimal digit.
pub open spec fn unsigned_text_value(s: Seq<char>) -> Option<nat> {
    let digits = if s.len() > 0 && s[0] == '+' { s.skip(1) } else { s };
    if digits.len() > 0 && all_digits(digits) {
        Some(digits_value(digits))
    } else {
        None
    }
}

proof fn lemma_digits_value_grows(s: Seq<char>, i: int)
    requires
        0 <= i <= s.len(),
    ensures
        digits_value(s.take(i)) <= digits_value(s),
    decreases s.len() - i,
{
    if i < s.len() {
        lemma_digits_value_grows(s, i + 1);
        assert(s.take(i + 1).drop_last() =~= s.take(i));
    } else {
        assert(s.take(i) =~= s);
    }
}

/// `str::parse::<u64>`: `Some` exactly when the text is a decimal number
/// (optionally signed `+`) that fits in a `u64`.
pub fn parse_u64(s: &[char]) -> (r: Option<u64>)
    ensures
        match r {
            Some(v) => unsigned_text_value(s@) == Some(v as nat),
            None => unsigned_text_value(s@) is None || unsigned_text_value(s@).unwrap() > u64::MAX,
        },
{
    let start: usize = if s.len() > 0 && s[0] == '+' { 1 } else { 0 };
    let ghost digits = if s@.len() > 0 && s@[0] == '+' { s@.skip(1) } else { s@ };
    assert(digits =~= s@.skip(start as int));
    if start >= s.len() {
        return None;
    }
    let mut v: u64 = 0;
    let mut i = start;
    while i < s.len()
        invariant
            start <= i <= s@.len(),
            digits =~= s@.skip(start as int),
            digits == (if s@.len() > 0 && s@[0] == '+' { s@.skip(1) } else { s@ }),
            forall|j: int| 0 <= j < i - start ==> #[trigger] digit_value(digits[j]) is Some,
            v as nat == digits_value(digits.take(i - start)),
        decreases s@.len() - i,
    {
        let c = s[i];
        if !('0' <= c && c <= '9') {
            proof {
                assert(digit_value(digits[i - start]) is None);
                assert(!all_digits(digits));
                assert(unsigned_text_value(s@) is None);
            }
            return None;
        }
        let d: u64 = (c as u32 - 48) as u64;
        proof {
            assert(digits.take(i - start + 1).drop_last() =~= digits.take(i - start));
        }
        if v > (u64::MAX - d) / 10 {
            proof {
                assert(digits_value(digits.take(i - start + 1)) == v * 10 + d);
                assert(v * 10 + d > u64::MAX) by (nonlinear_arith)
                    requires v > (u64::MAX - d) / 10, d <= 9;
                lemma_digits_value_grows(digits, i - start + 1);
            }
            return None;
        }
        proof {
            assert(v * 10 + d <= u64::MAX) by (nonlinear_arith)
                requires v <= (u64::MAX - d) / 10, d <= 9;
        }
        v = v * 10 + d;
        i = i + 1;
    }
    assert(digits.take(s@.len() - start) =~= digits);
    Some(v)
}

} // verus!

verus! {

/// `str::parse::<usize>`: `Some` exactly when the text is a decimal number
/// (optionally signed `+`) that fits in a `usize`.
pub fn parse_usize(s: &[char]) -> (r: Option<usize>)
    ensures
        match r {
            Some(v) => unsigned_text_value(s@) == Some(v as nat),
            None => unsigned_text_value(s@) is None || unsigned_text_value(s@).unwrap() > usize::MAX,
        },
{
    match parse_u64(s) {
        Some(v) => {
            if v <= usize::MAX as u64 {
                Some(v as usize)
            } else {
                None
            }
        },
        None => None,
    }
}

} // verus!

verus! {

proof fn lemma_dec_text_digits(n: nat)
    ensures
        all_digits(crate::text::dec_text(n)),
        digits_value(crate::text::dec_text(n)) == n,
        crate::text::dec_text(n).len() > 0,
    decreases n,
{
    let s = crate::text::dec_text(n);
    if n < 10 {
        assert(s =~= seq![crate::text::hex_digit(n)]);
        assert(s.drop_last() =~= Seq::<char>::empty());
        assert(((48 + n) as char) as u32 == 48 + n);
        assert(s.last() == crate::text::hex_digit(n));
        assert((s.last() as u32 - 48) as nat == n);
        assert(digits_value(s) == digits_value(s.drop_last()) * 10 + (s.last() as u32 - 48) as nat);
    } else {
        lemma_dec_text_digits(n / 10);
        let d = n % 10;
        assert(s.drop_last() =~= crate::text::dec_text(n / 10));
        assert(((48 + d) as char) as u32 == 48 + d);
        assert(s.last() == crate::text::hex_digit(d));
        assert(n == (n / 10) * 10 + n % 10) by (nonlinear_arith);
        assert((s.last() as u32 - 48) as nat == d);
        assert(digits_value(s.drop_last()) == n / 10);
        assert(digits_value(s) == digits_value(s.drop_last()) * 10 + (s.last() as u32 - 48) as nat);
        assert forall|i: int| 0 <= i < s.len() implies #[trigger] digit_value(s[i]) is Some by {
            if i < s.len() - 1 {
                assert(s[i] == crate::text::dec_text(n / 10)[i]);
            }
        }
    }
}

/// Parsing the decimal rendering of a number gives the number back: a
/// client that passes a reported number back as a parameter is read exactly.
pub proof fn lemma_parse_rendered(n: nat)
    ensures
        unsigned_text_value(crate::text::dec_text(n)) == Some(n),
{
    lemma_dec_text_digits(n);
    let s = crate::text::dec_text(n);
    assert(digit_value(s[0]) is Some);
}

/// The path of a URL never holds a query or a fragment.
pub proof fn lemma_path_has_no_query(url: Seq<char>)
    ensures
        forall|i: int| 0 <= i < url_path(url).len() ==> #[trigger] url_path(url)[i] != '?' && url_path(url)[i] != '#',
{
    let cut = find_either(url, '?', '#', 0);
    lemma_find_either_bounds(url, '?', '#', 0);
    lemma_find_either_none_before(url, 0);
    let base = url.take(cut);
    assert forall|i: int| 0 <= i < base.len() implies base[i] != '?' && base[i] != '#' by {
        assert(base[i] == url[i]);
    }
    let k = find_seq(base, scheme_separator(), 0);
    lemma_find_seq_bounds(base, scheme_separator(), 0);
    if k < base.len() {
        let p = find_char(base, '/', k + 3);
        lemma_find_char_bounds(base, '/', k + 3);
        if p < base.len() {
            assert forall|i: int| 0 <= i < base.skip(p).len() implies base.skip(p)[i] == base[p + i] by {}
        }
    }
}

proof fn lemma_find_either_none_before(s: Seq<char>, i: int)
    requires
        0 <= i,
    ensures
        forall|j: int| i <= j < find_either(s, '?', '#', i) && j < s.len() ==> s[j] != '?' && s[j] != '#',
    decreases s.len() - i,
{
    if i < s.len() && s[i] != '?' && s[i] != '#' {
        lemma_find_either_none_before(s, i + 1);
    }
}

} // verus!
