//! Printable findings in undecodable bytes: runs of printable ASCII, the
//! route-like and class-name-like tokens inside them, each kept as a sorted
//! set.
use vstd::prelude::*;
use crate::text::bounded;
use crate::order::{insert_text, sorted_by, text_order, texts, lemma_text_order, sorted_elements, lemma_sorted_is_sorted_elements};
use crate::order::first_n;

verus! {

/// Bytes kept in a printable run: tab, line feed, carriage return and
/// printable ASCII.
pub open spec fn printable(b: u8) -> bool {
    b == 9 || b == 10 || b == 13 || (0x20 <= b && b <= 0x7e)
}

/// Bytes read as characters one for one.
pub open spec fn byte_chars(bs: Seq<u8>) -> Seq<char> {
    bs.map_values(|b: u8| b as char)
}

/// ASCII whitespace, as `char::is_whitespace` has it on ASCII.
pub open spec fn is_ws(c: char) -> bool {
    c == ' ' || c == '\t' || c == '\n' || c == '\r' || c == '\x0B' || c == '\x0C'
}

/// The text without leading whitespace.
pub open spec fn trim_start(s: Seq<char>) -> Seq<char>
    decreases s.len(),
{
    if s.len() > 0 && is_ws(s[0]) {
        trim_start(s.drop_first())
    } else {
        s
    }
}

/// The text without trailing whitespace.
pub open spec fn trim_end(s: Seq<char>) -> Seq<char>
    decreases s.len(),
{
    if s.len() > 0 && is_ws(s.last()) {
        trim_end(s.drop_last())
    } else {
        s
    }
}

/// `str::trim` on ASCII text.
pub open spec fn trimmed(s: Seq<char>) -> Seq<char> {
    trim_end(trim_start(s))
}

/// The finding a printable run gives: its trimmed text, at most
/// `MAX_FINDING_CHARS` characters.
pub open spec fn finding_text(run: Seq<u8>) -> Seq<char> {
    bounded(trimmed(byte_chars(run)), crate::signup::MAX_FINDING_CHARS as nat).0
}

/// Characters that end a token.
pub open spec fn is_token_sep(c: char) -> bool {
    is_ws(c) || c == '"' || c == '\'' || c == ',' || c == ';' || c == '(' || c == ')' || c == '['
        || c == ']' || c == '{' || c == '}'
}

/// The tokens of `s` from position `k` on, the current one begun at `start`
/// (`str::split` on the separators, empty tokens included).
pub open spec fn tokens_from(s: Seq<char>, start: int, k: int) -> Seq<Seq<char>>
    decreases s.len() - k,
{
    if k >= s.len() {
        seq![s.subrange(start, s.len() as int)]
    } else if is_token_sep(s[k]) {
        seq![s.subrange(start, k)] + tokens_from(s, k + 1, k + 1)
    } else {
        tokens_from(s, start, k + 1)
    }
}

/// The tokens of a text.
pub open spec fn tokens(s: Seq<char>) -> Seq<Seq<char>> {
    tokens_from(s, 0, 0)
}

/// Characters after which a class-name tail starts.
pub open spec fn is_tail_sep(c: char) -> bool {
    c == '.' || c == '/' || c == '+'
}

/// The part of a token after its last `.`, `/` or `+`
/// (`rsplit(['.', '/', '+']).next()`).
pub open spec fn tail_of(t: Seq<char>) -> Seq<char>
    decreases t.len(),
{
    if t.len() == 0 {
        t
    } else if is_tail_sep(t.last()) {
        Seq::empty()
    } else {
        tail_of(t.drop_last()).push(t.last())
    }
}

/// Characters allowed in a class name: ASCII letters and digits, `_`, `` ` ``.
pub open spec fn is_class_char(c: char) -> bool {
    ('0' <= c && c <= '9') || ('a' <= c && c <= 'z') || ('A' <= c && c <= 'Z') || c == '_' || c
        == '`'
}

/// A token that looks like a route: it starts with `/` and has at least three
/// characters.
pub open spec fn is_route_token(t: Seq<char>) -> bool {
    t.len() >= 3 && t[0] == '/'
}

/// A token that looks like a class name: its tail has 4 to 160 class-name
/// characters and starts with an ASCII capital.
pub open spec fn is_class_token(t: Seq<char>) -> bool {
    let tl = tail_of(t);
    4 <= tl.len() <= 160 && 'A' <= tl[0] && tl[0] <= 'Z' && forall|i: int|
        0 <= i < tl.len() ==> #[trigger] is_class_char(tl[i])
}

/// `is_route_token` as a value.
pub open spec fn route_pred() -> spec_fn(Seq<char>) -> bool {
    |t: Seq<char>| is_route_token(t)
}

/// `is_class_token` as a value.
pub open spec fn class_pred() -> spec_fn(Seq<char>) -> bool {
    |t: Seq<char>| is_class_token(t)
}

/// The route-like tokens of a text.
pub open spec fn route_tokens(s: Seq<char>) -> Set<Seq<char>> {
    tokens(s).to_set().filter(route_pred())
}

/// The class-name-like tokens of a text.
pub open spec fn class_tokens(s: Seq<char>) -> Set<Seq<char>> {
    tokens(s).to_set().filter(class_pred())
}

/// Ends the current run: a run of at least four bytes whose finding is not
/// empty adds the finding and its route- and class-like tokens.
pub open spec fn flushed(
    st: (Seq<u8>, Set<Seq<char>>, Set<Seq<char>>, Set<Seq<char>>),
) -> (Seq<u8>, Set<Seq<char>>, Set<Seq<char>>, Set<Seq<char>>) {
    if st.0.len() < 4 {
        (Seq::empty(), st.1, st.2, st.3)
    } else {
        let text = finding_text(st.0);
        if text.len() == 0 {
            (Seq::empty(), st.1, st.2, st.3)
        } else {
            (Seq::empty(), st.1.insert(text), st.2.union(route_tokens(text)), st.3.union(class_tokens(text)))
        }
    }
}

/// One byte of the scan: a printable byte extends the run (ending it once it
/// reaches `MAX_FINDING_CHARS`), any other byte ends it.
pub open spec fn stepped(
    st: (Seq<u8>, Set<Seq<char>>, Set<Seq<char>>, Set<Seq<char>>),
    b: u8,
) -> (Seq<u8>, Set<Seq<char>>, Set<Seq<char>>, Set<Seq<char>>) {
    if printable(b) {
        let grown = (st.0.push(b), st.1, st.2, st.3);
        if grown.0.len() >= crate::signup::MAX_FINDING_CHARS {
            flushed(grown)
        } else {
            grown
        }
    } else {
        flushed(st)
    }
}

/// The scan over `bytes`, which stops once `MAX_FINDINGS` findings are held.
pub open spec fn scanned(bytes: Seq<u8>) -> (Seq<u8>, Set<Seq<char>>, Set<Seq<char>>, Set<Seq<char>>)
    decreases bytes.len(),
{
    if bytes.len() == 0 {
        (Seq::empty(), Set::empty(), Set::empty(), Set::empty())
    } else {
        let st = scanned(bytes.drop_last());
        if st.1.len() >= crate::signup::MAX_FINDINGS {
            st
        } else {
            stepped(st, bytes.last())
        }
    }
}

/// `printable_findings`: the findings, route candidates and class-name
/// candidates, each in increasing order and at most `MAX_FINDINGS` of them.
pub open spec fn findings_of(bytes: Seq<u8>) -> (Seq<Seq<char>>, Seq<Seq<char>>, Seq<Seq<char>>) {
    let f = flushed(scanned(bytes));
    (
        first_n(sorted_elements(f.1, text_order()), crate::signup::MAX_FINDINGS as nat),
        first_n(sorted_elements(f.2, text_order()), crate::signup::MAX_FINDINGS as nat),
        first_n(sorted_elements(f.3, text_order()), crate::signup::MAX_FINDINGS as nat),
    )
}

} // verus!

verus! {

/// A strictly sorted sequence of texts has as many elements as its set.
pub proof fn lemma_sorted_texts_len(s: Seq<Seq<char>>)
    requires
        sorted_by(s, text_order()),
    ensures
        s.to_set().len() == s.len(),
        s.to_set().finite(),
{
    lemma_text_order();
    assert(s.no_duplicates()) by {
        assert forall|i: int, j: int| 0 <= i < s.len() && 0 <= j < s.len() && i != j implies s[i] != s[j] by {
            if i < j {
                assert(text_order()(s[i], s[j]));
            } else {
                assert(text_order()(s[j], s[i]));
            }
        }
    }
    s.unique_seq_to_set();
    vstd::seq_lib::seq_to_set_is_finite(s);
}

/// `str::trim` on characters.
pub fn trim_chars(s: &[char]) -> (r: Vec<char>)
    ensures
        r@ == trimmed(s@),
{
    let n = s.len();
    let mut a: usize = 0;
    assert(s@.skip(0) =~= s@);
    while a < n && (s[a] == ' ' || s[a] == '\t' || s[a] == '\n' || s[a] == '\r' || s[a] == '\x0B' || s[a] == '\x0C')
        invariant
            a <= n,
            n == s@.len(),
            trim_start(s@) == trim_start(s@.skip(a as int)),
        decreases n - a,
    {
        proof {
            assert(s@.skip(a as int).drop_first() =~= s@.skip(a + 1));
        }
        a = a + 1;
    }
    let ghost t = s@.skip(a as int);
    assert(trim_start(s@) == t);
    let mut b: usize = n;
    assert(t.take(n - a) =~= t);
    while b > a && (s[b - 1] == ' ' || s[b - 1] == '\t' || s[b - 1] == '\n' || s[b - 1] == '\r' || s[b - 1] == '\x0B' || s[b - 1] == '\x0C')
        invariant
            a <= b <= n,
            n == s@.len(),
            t == s@.skip(a as int),
            trim_end(t) == trim_end(t.take(b - a)),
        decreases b - a,
    {
        proof {
            assert(t.take(b - a).drop_last() =~= t.take(b - a - 1));
            assert(t.take(b - a).last() == s@[b - 1]);
        }
        b = b - 1;
    }
    proof {
        if b > a {
            assert(t.take(b - a).last() == s@[b - 1]);
        }
    }
    let r = crate::uri::copy_range(s, a, b);
    assert(r@ =~= t.take(b - a));
    r
}

/// The tail of a token after its last `.`, `/` or `+`.
pub fn tail_chars(t: &[char]) -> (r: Vec<char>)
    ensures
        r@ == tail_of(t@),
{
    let n = t.len();
    let mut j: usize = n;
    assert(t@.take(n as int) =~= t@);
    assert(t@.subrange(n as int, n as int) =~= Seq::<char>::empty());
    while j > 0 && !(t[j - 1] == '.' || t[j - 1] == '/' || t[j - 1] == '+')
        invariant
            j <= n,
            n == t@.len(),
            tail_of(t@) == tail_of(t@.take(j as int)) + t@.subrange(j as int, n as int),
        decreases j,
    {
        proof {
            assert(t@.take(j as int).drop_last() =~= t@.take(j - 1));
            assert(t@.take(j as int).last() == t@[j - 1]);
            assert(tail_of(t@.take(j - 1)).push(t@[j - 1]) + t@.subrange(j as int, n as int)
                =~= tail_of(t@.take(j - 1)) + t@.subrange(j - 1, n as int));
        }
        j = j - 1;
    }
    proof {
        if j > 0 {
            assert(t@.take(j as int).last() == t@[j - 1]);
        } else {
            assert(t@.take(0) =~= Seq::<char>::empty());
        }
        assert(tail_of(t@) =~= t@.subrange(j as int, n as int));
    }
    crate::uri::copy_range(t, j, n)
}

/// Whether a token looks like a route.
pub fn route_token(t: &[char]) -> (r: bool)
    ensures
        r == is_route_token(t@),
{
    t.len() >= 3 && t[0] == '/'
}

/// Whether a token looks like a class name.
pub fn class_token(t: &[char]) -> (r: bool)
    ensures
        r == is_class_token(t@),
{
    let tl = tail_chars(t);
    if tl.len() < 4 || tl.len() > 160 || !('A' <= tl[0] && tl[0] <= 'Z') {
        return false;
    }
    let mut i: usize = 0;
    while i < tl.len()
        invariant
            i <= tl@.len(),
            tl@ == tail_of(t@),
            forall|k: int| 0 <= k < i ==> #[trigger] is_class_char(tl@[k]),
        decreases tl@.len() - i,
    {
        let c = tl[i];
        if !(('0' <= c && c <= '9') || ('a' <= c && c <= 'z') || ('A' <= c && c <= 'Z') || c == '_' || c == '`') {
            assert(!is_class_char(tl@[i as int]));
            assert(tl@ == tail_of(t@));
            assert(!(forall|m: int| 0 <= m < tl@.len() ==> #[trigger] is_class_char(tl@[m])));
            return false;
        }
        i = i + 1;
    }
    true
}

/// Whether `c` ends a token.
fn token_sep(c: char) -> (r: bool)
    ensures
        r == is_token_sep(c),
{
    c == ' ' || c == '\t' || c == '\n' || c == '\r' || c == '\x0B' || c == '\x0C' || c == '"'
        || c == '\'' || c == ',' || c == ';' || c == '(' || c == ')' || c == '[' || c == ']'
        || c == '{' || c == '}'
}

/// Adds a token to the route and class sets it qualifies for.
fn add_token(t: Vec<char>, routes: &mut Vec<Vec<char>>, classes: &mut Vec<Vec<char>>)
    requires
        sorted_by(texts(old(routes)@), text_order()),
        sorted_by(texts(old(classes)@), text_order()),
    ensures
        sorted_by(texts(final(routes)@), text_order()),
        sorted_by(texts(final(classes)@), text_order()),
        texts(final(routes)@).to_set() == texts(old(routes)@).to_set().union(
            set![t@].filter(route_pred()),
        ),
        texts(final(classes)@).to_set() == texts(old(classes)@).to_set().union(
            set![t@].filter(class_pred()),
        ),
{
    let ghost tv = t@;
    if route_token(t.as_slice()) {
        let copy = crate::uri::copy_range(t.as_slice(), 0, t.len());
        assert(copy@ =~= tv);
        insert_text(routes, copy);
        assert(set![tv].filter(route_pred()) =~= set![tv]);
    } else {
        assert(set![tv].filter(route_pred()) =~= Set::<Seq<char>>::empty());
    }
    assert(texts(routes@).to_set() =~= texts(old(routes)@).to_set().union(set![tv].filter(route_pred())));
    if class_token(t.as_slice()) {
        insert_text(classes, t);
        assert(set![tv].filter(class_pred()) =~= set![tv]);
    } else {
        assert(set![tv].filter(class_pred()) =~= Set::<Seq<char>>::empty());
    }
    assert(texts(classes@).to_set() =~= texts(old(classes)@).to_set().union(set![tv].filter(class_pred())));
}

proof fn lemma_push_filter(e: Seq<Seq<char>>, t: Seq<char>, p: spec_fn(Seq<char>) -> bool)
    ensures
        e.push(t).to_set().filter(p) == e.to_set().filter(p).union(set![t].filter(p)),
{
    assert(e.push(t).to_set() =~= e.to_set().insert(t)) by {
        assert forall|x: Seq<char>| e.push(t).to_set().contains(x) <==> e.to_set().insert(t).contains(x) by {
            if e.push(t).to_set().contains(x) {
                let i = choose|i: int| 0 <= i < e.push(t).len() && e.push(t)[i] == x;
                if i < e.len() {
                    assert(e[i] == x);
                }
            }
            if e.to_set().contains(x) {
                let i = choose|i: int| 0 <= i < e.len() && e[i] == x;
                assert(e.push(t)[i] == x);
            }
            if x == t {
                assert(e.push(t)[e.len() as int] == x);
            }
        }
    }
    assert(e.push(t).to_set().filter(p) =~= e.to_set().filter(p).union(set![t].filter(p)));
}

/// Adds the route- and class-like tokens of `text` to the two sets.
fn add_tokens(text: &[char], routes: &mut Vec<Vec<char>>, classes: &mut Vec<Vec<char>>)
    requires
        sorted_by(texts(old(routes)@), text_order()),
        sorted_by(texts(old(classes)@), text_order()),
    ensures
        sorted_by(texts(final(routes)@), text_order()),
        sorted_by(texts(final(classes)@), text_order()),
        texts(final(routes)@).to_set() == texts(old(routes)@).to_set().union(route_tokens(text@)),
        texts(final(classes)@).to_set() == texts(old(classes)@).to_set().union(class_tokens(text@)),
{
    let ghost r0 = texts(routes@).to_set();
    let ghost c0 = texts(classes@).to_set();
    let ghost mut emitted: Seq<Seq<char>> = Seq::empty();
    let n = text.len();
    let mut start: usize = 0;
    let mut k: usize = 0;
    proof {
        assert(emitted.to_set().filter(route_pred()) =~= Set::<Seq<char>>::empty());
        assert(emitted.to_set().filter(class_pred()) =~= Set::<Seq<char>>::empty());
        assert(r0.union(Set::<Seq<char>>::empty()) =~= r0);
        assert(c0.union(Set::<Seq<char>>::empty()) =~= c0);
        assert(tokens(text@) =~= emitted + tokens_from(text@, 0, 0));
    }
    while k < n
        invariant
            n == text@.len(),
            start <= k <= n,
            tokens(text@) == emitted + tokens_from(text@, start as int, k as int),
            sorted_by(texts(routes@), text_order()),
            sorted_by(texts(classes@), text_order()),
            texts(routes@).to_set() == r0.union(emitted.to_set().filter(route_pred())),
            texts(classes@).to_set() == c0.union(emitted.to_set().filter(class_pred())),
        decreases n - k,
    {
        if token_sep(text[k]) {
            let t = crate::uri::copy_range(text, start, k);
            proof {
                lemma_push_filter(emitted, t@, route_pred());
                lemma_push_filter(emitted, t@, class_pred());
                assert(emitted + tokens_from(text@, start as int, k as int) =~= emitted.push(t@) + tokens_from(text@, k + 1, k + 1));
                emitted = emitted.push(t@);
            }
            add_token(t, routes, classes);
            proof {
                assert(texts(routes@).to_set() =~= r0.union(emitted.to_set().filter(route_pred())));
                assert(texts(classes@).to_set() =~= c0.union(emitted.to_set().filter(class_pred())));
            }
            start = k + 1;
        }
        k = k + 1;
    }
    let t = crate::uri::copy_range(text, start, n);
    proof {
        lemma_push_filter(emitted, t@, route_pred());
        lemma_push_filter(emitted, t@, class_pred());
        assert(tokens(text@) =~= emitted.push(t@));
        emitted = emitted.push(t@);
    }
    add_token(t, routes, classes);
    proof {
        assert(texts(routes@).to_set() =~= r0.union(route_tokens(text@)));
        assert(texts(classes@).to_set() =~= c0.union(class_tokens(text@)));
    }
}

} // verus!

verus! {

/// Ends the current run, as `flushed` says.
fn flush(
    current: &mut Vec<u8>,
    strings: &mut Vec<Vec<char>>,
    routes: &mut Vec<Vec<char>>,
    classes: &mut Vec<Vec<char>>,
)
    requires
        sorted_by(texts(old(strings)@), text_order()),
        sorted_by(texts(old(routes)@), text_order()),
        sorted_by(texts(old(classes)@), text_order()),
    ensures
        sorted_by(texts(final(strings)@), text_order()),
        sorted_by(texts(final(routes)@), text_order()),
        sorted_by(texts(final(classes)@), text_order()),
        (final(current)@, texts(final(strings)@).to_set(), texts(final(routes)@).to_set(), texts(
            final(classes)@,
        ).to_set()) == flushed(
            (
                old(current)@,
                texts(old(strings)@).to_set(),
                texts(old(routes)@).to_set(),
                texts(old(classes)@).to_set(),
            ),
        ),
{
    if current.len() < 4 {
        current.clear();
        return;
    }
    let mut raw: Vec<char> = Vec::new();
    let mut i: usize = 0;
    while i < current.len()
        invariant
            i <= current@.len(),
            raw@ =~= byte_chars(current@).take(i as int),
        decreases current@.len() - i,
    {
        raw.push(current[i] as char);
        i = i + 1;
    }
    assert(raw@ =~= byte_chars(current@));
    let trimmed_run = trim_chars(raw.as_slice());
    let keep = if trimmed_run.len() <= crate::signup::MAX_FINDING_CHARS {
        trimmed_run.len()
    } else {
        crate::signup::MAX_FINDING_CHARS
    };
    let text = crate::uri::copy_range(trimmed_run.as_slice(), 0, keep);
    assert(text@ =~= finding_text(current@));
    if text.len() == 0 {
        current.clear();
        return;
    }
    add_tokens(text.as_slice(), routes, classes);
    insert_text(strings, text);
    current.clear();
}

/// The first `limit` texts of a vector, as `String`s.
fn first_strings(v: &Vec<Vec<char>>, limit: usize) -> (r: Vec<String>)
    ensures
        r@.map_values(|s: String| s@) == first_n(texts(v@), limit as nat),
{
    let n = if v.len() <= limit { v.len() } else { limit };
    let mut r: Vec<String> = Vec::new();
    let mut i: usize = 0;
    while i < n
        invariant
            n <= v@.len(),
            i <= n,
            r@.map_values(|s: String| s@) =~= texts(v@).take(i as int),
        decreases n - i,
    {
        let s = crate::json::string_of(v[i].as_slice());
        let ghost before = r@;
        r.push(s);
        proof {
            assert(r@ == before.push(s));
            assert(texts(v@)[i as int] == v@[i as int]@);
            assert(r@.map_values(|s: String| s@) =~= before.map_values(|s: String| s@).push(s@));
        }
        i = i + 1;
    }
    assert(texts(v@).take(n as int) =~= first_n(texts(v@), limit as nat));
    r
}

/// `printable_findings`: printable runs of at least four bytes (split at
/// `MAX_FINDING_CHARS`), trimmed, with their route-like and class-name-like
/// tokens; the scan stops once `MAX_FINDINGS` findings are held, and each
/// list is sorted and cut to `MAX_FINDINGS`. The three sets are held as
/// strictly increasing vectors of character sequences rather than as
/// `BTreeSet<String>`: vstd proves `obeys_cmp` for integers but not for
/// `String`, so the order in which such a set hands out its texts could not
/// be proved here.
pub fn printable_findings(bytes: &[u8]) -> (r: (Vec<String>, Vec<String>, Vec<String>))
    ensures
        (r.0@.map_values(|s: String| s@), r.1@.map_values(|s: String| s@), r.2@.map_values(
            |s: String| s@,
        )) == findings_of(bytes@),
{
    proof { lemma_text_order(); }
    let mut current: Vec<u8> = Vec::new();
    let mut strings: Vec<Vec<char>> = Vec::new();
    let mut routes: Vec<Vec<char>> = Vec::new();
    let mut classes: Vec<Vec<char>> = Vec::new();
    let mut i: usize = 0;
    proof {
        assert(texts(strings@).to_set() =~= Set::<Seq<char>>::empty());
        assert(bytes@.take(0) =~= Seq::<u8>::empty());
        assert(current@ =~= Seq::<u8>::empty());
    }
    while i < bytes.len()
        invariant
            i <= bytes@.len(),
            sorted_by(texts(strings@), text_order()),
            sorted_by(texts(routes@), text_order()),
            sorted_by(texts(classes@), text_order()),
            (current@, texts(strings@).to_set(), texts(routes@).to_set(), texts(classes@).to_set())
                == scanned(bytes@.take(i as int)),
        decreases bytes@.len() - i,
    {
        proof {
            assert(bytes@.take(i + 1).drop_last() =~= bytes@.take(i as int));
            assert(bytes@.take(i + 1).last() == bytes@[i as int]);
            lemma_sorted_texts_len(texts(strings@));
        }
        if strings.len() < crate::signup::MAX_FINDINGS {
            let b = bytes[i];
            if b == 9 || b == 10 || b == 13 || (0x20 <= b && b <= 0x7e) {
                current.push(b);
                if current.len() >= crate::signup::MAX_FINDING_CHARS {
                    flush(&mut current, &mut strings, &mut routes, &mut classes);
                }
            } else {
                flush(&mut current, &mut strings, &mut routes, &mut classes);
            }
        }
        i = i + 1;
    }
    assert(bytes@.take(bytes@.len() as int) =~= bytes@);
    flush(&mut current, &mut strings, &mut routes, &mut classes);
    proof {
        lemma_sorted_is_sorted_elements(texts(strings@), text_order());
        lemma_sorted_is_sorted_elements(texts(routes@), text_order());
        lemma_sorted_is_sorted_elements(texts(classes@), text_order());
    }
    let a = first_strings(&strings, crate::signup::MAX_FINDINGS);
    let b = first_strings(&routes, crate::signup::MAX_FINDINGS);
    let c = first_strings(&classes, crate::signup::MAX_FINDINGS);
    (a, b, c)
}

} // verus!

verus! {

/// What every scan state keeps: finite sets, findings of 1 to
/// `MAX_FINDING_CHARS` characters, and only route- and class-like tokens.
pub open spec fn findings_shape(st: (Seq<u8>, Set<Seq<char>>, Set<Seq<char>>, Set<Seq<char>>)) -> bool {
    &&& st.1.finite()
    &&& st.2.finite()
    &&& st.3.finite()
    &&& forall|t: Seq<char>| #[trigger] st.1.contains(t) ==> 0 < t.len() <= crate::signup::MAX_FINDING_CHARS
    &&& forall|t: Seq<char>| #[trigger] st.2.contains(t) ==> is_route_token(t)
    &&& forall|t: Seq<char>| #[trigger] st.3.contains(t) ==> is_class_token(t)
}

proof fn lemma_flushed_shape(st: (Seq<u8>, Set<Seq<char>>, Set<Seq<char>>, Set<Seq<char>>))
    requires
        findings_shape(st),
    ensures
        findings_shape(flushed(st)),
{
    if st.0.len() >= 4 {
        let text = finding_text(st.0);
        crate::text::lemma_bounded_prefix(trimmed(byte_chars(st.0)), crate::signup::MAX_FINDING_CHARS as nat);
        vstd::seq_lib::seq_to_set_is_finite(tokens(text));
        assert(route_tokens(text).finite());
        assert(class_tokens(text).finite());
    }
}

proof fn lemma_scanned_shape(bytes: Seq<u8>)
    ensures
        findings_shape(scanned(bytes)),
    decreases bytes.len(),
{
    if bytes.len() == 0 {
        let st = scanned(bytes);
        assert(st.1 =~= Set::<Seq<char>>::empty());
    } else {
        lemma_scanned_shape(bytes.drop_last());
        let st = scanned(bytes.drop_last());
        if st.1.len() < crate::signup::MAX_FINDINGS {
            let b = bytes.last();
            if printable(b) {
                let grown = (st.0.push(b), st.1, st.2, st.3);
                if grown.0.len() >= crate::signup::MAX_FINDING_CHARS {
                    lemma_flushed_shape(grown);
                }
            } else {
                lemma_flushed_shape(st);
            }
        }
    }
}

/// Each finding list holds at most `MAX_FINDINGS` entries in strictly
/// increasing order; findings are 1 to `MAX_FINDING_CHARS` characters long,
/// route candidates start with `/` and have at least three characters, and
/// class-name candidates end in a capitalised name of 4 to 160 characters.
pub proof fn lemma_findings_shape(bytes: Seq<u8>)
    ensures
        findings_of(bytes).0.len() <= crate::signup::MAX_FINDINGS,
        findings_of(bytes).1.len() <= crate::signup::MAX_FINDINGS,
        findings_of(bytes).2.len() <= crate::signup::MAX_FINDINGS,
        sorted_by(findings_of(bytes).0, text_order()),
        sorted_by(findings_of(bytes).1, text_order()),
        sorted_by(findings_of(bytes).2, text_order()),
        forall|i: int| 0 <= i < findings_of(bytes).0.len() ==> 0 < (#[trigger] findings_of(bytes).0[i]).len() <= crate::signup::MAX_FINDING_CHARS,
        forall|i: int| 0 <= i < findings_of(bytes).1.len() ==> is_route_token(#[trigger] findings_of(bytes).1[i]),
        forall|i: int| 0 <= i < findings_of(bytes).2.len() ==> is_class_token(#[trigger] findings_of(bytes).2[i]),
{
    lemma_text_order();
    lemma_scanned_shape(bytes);
    let f = flushed(scanned(bytes));
    lemma_flushed_shape(scanned(bytes));
    crate::order::lemma_sorted_elements(f.1, text_order());
    crate::order::lemma_sorted_elements(f.2, text_order());
    crate::order::lemma_sorted_elements(f.3, text_order());
    let a = sorted_elements(f.1, text_order());
    let b = sorted_elements(f.2, text_order());
    let c = sorted_elements(f.3, text_order());
    let r = findings_of(bytes);
    assert forall|i: int| 0 <= i < r.0.len() implies 0 < (#[trigger] r.0[i]).len() <= crate::signup::MAX_FINDING_CHARS by {
        assert(r.0[i] == a[i]);
        assert(a.to_set().contains(a[i]));
    }
    assert forall|i: int| 0 <= i < r.1.len() implies is_route_token(#[trigger] r.1[i]) by {
        assert(r.1[i] == b[i]);
        assert(b.to_set().contains(b[i]));
    }
    assert forall|i: int| 0 <= i < r.2.len() implies is_class_token(#[trigger] r.2[i]) by {
        assert(r.2[i] == c[i]);
        assert(c.to_set().contains(c[i]));
    }
    assert forall|i: int, j: int| 0 <= i < j < r.0.len() implies #[trigger] text_order()(r.0[i], r.0[j]) by {
        assert(r.0[i] == a[i] && r.0[j] == a[j]);
    }
    assert forall|i: int, j: int| 0 <= i < j < r.1.len() implies #[trigger] text_order()(r.1[i], r.1[j]) by {
        assert(r.1[i] == b[i] && r.1[j] == b[j]);
    }
    assert forall|i: int, j: int| 0 <= i < j < r.2.len() implies #[trigger] text_order()(r.2[i], r.2[j]) by {
        assert(r.2[i] == c[i] && r.2[j] == c[j]);
    }
}


/// The part of a token after position `k` is its tail when `k` is 0 or just
/// after a `.`, `/` or `+`, and none of those follows.
proof fn lemma_tail_at(t: Seq<char>, k: int)
    requires
        0 <= k <= t.len(),
        k == 0 || t[k - 1] == '.' || t[k - 1] == '/' || t[k - 1] == '+',
        forall|i: int| k <= i < t.len() ==> #[trigger] t[i] != '.' && t[i] != '/' && t[i] != '+',
    ensures
        tail_of(t) == t.skip(k),
    decreases t.len(),
{
    if t.len() == k {
        if k > 0 {
            assert(t.last() == t[k - 1]);
        }
        assert(t.skip(k) =~= Seq::<char>::empty());
    } else {
        let d = t.drop_last();
        assert(t.last() == t[t.len() - 1]);
        assert forall|i: int| k <= i < d.len() implies #[trigger] d[i] != '.' && d[i] != '/' && d[i] != '+' by {
            assert(d[i] == t[i]);
        }
        if k > 0 {
            assert(d[k - 1] == t[k - 1]);
        }
        lemma_tail_at(d, k);
        assert(t.skip(k) =~= d.skip(k).push(t.last()));
    }
}

/// Class-name candidates over the characters written out: a token whose
/// part after its last `.`, `/` or `+` has 4 to 160 characters, begins with
/// `A`..`Z` and holds only ASCII letters, ASCII digits, `_` and `` ` `` is a
/// class-name candidate of every text it is a token of, and no other token
/// is.
pub proof fn lemma_class_candidates(s: Seq<char>, t: Seq<char>, k: int)
    requires
        0 <= k <= t.len(),
        k == 0 || t[k - 1] == '.' || t[k - 1] == '/' || t[k - 1] == '+',
        forall|i: int| k <= i < t.len() ==> #[trigger] t[i] != '.' && t[i] != '/' && t[i] != '+',
    ensures
        ({
            let tl = t.skip(k);
            let looks_like_class = 4 <= tl.len() <= 160 && 'A' <= tl[0] && tl[0] <= 'Z' && forall|i: int|
                0 <= i < tl.len() ==> ('0' <= #[trigger] tl[i] && tl[i] <= '9') || ('a' <= tl[i] && tl[i]
                    <= 'z') || ('A' <= tl[i] && tl[i] <= 'Z') || tl[i] == '_' || tl[i] == '`';
            &&& is_class_token(t) == looks_like_class
            &&& tokens(s).contains(t) ==> (class_tokens(s).contains(t) <==> looks_like_class)
        }),
{
    lemma_tail_at(t, k);
    let tl = t.skip(k);
    let by_pred = forall|i: int| 0 <= i < tl.len() ==> #[trigger] is_class_char(tl[i]);
    let by_chars = forall|i: int|
        0 <= i < tl.len() ==> ('0' <= #[trigger] tl[i] && tl[i] <= '9') || ('a' <= tl[i] && tl[i] <= 'z')
            || ('A' <= tl[i] && tl[i] <= 'Z') || tl[i] == '_' || tl[i] == '`';
    assert(by_pred == by_chars) by {
        if by_pred {
            assert forall|i: int| 0 <= i < tl.len() implies ('0' <= #[trigger] tl[i] && tl[i] <= '9') || ('a'
                <= tl[i] && tl[i] <= 'z') || ('A' <= tl[i] && tl[i] <= 'Z') || tl[i] == '_' || tl[i] == '`' by {
                assert(is_class_char(tl[i]));
            }
        }
        if by_chars {
            assert forall|i: int| 0 <= i < tl.len() implies #[trigger] is_class_char(tl[i]) by {
                assert(('0' <= tl[i] && tl[i] <= '9') || ('a' <= tl[i] && tl[i] <= 'z') || ('A' <= tl[i]
                    && tl[i] <= 'Z') || tl[i] == '_' || tl[i] == '`');
            }
        }
    }
    assert(class_pred()(t) == is_class_token(t));
    if tokens(s).contains(t) {
        assert(tokens(s).to_set().contains(t));
        assert(class_tokens(s).contains(t) == class_pred()(t));
    }
}


/// Route candidates over the characters written out: a token of a text is a
/// route candidate exactly when it begins with `/` and has at least three
/// characters.
pub proof fn lemma_route_candidates(s: Seq<char>, t: Seq<char>)
    requires
        tokens(s).contains(t),
    ensures
        route_tokens(s).contains(t) <==> (t.len() >= 3 && t[0] == '/'),
{
    assert(tokens(s).to_set().contains(t));
    assert(route_pred()(t) == is_route_token(t));
}

} // verus!
