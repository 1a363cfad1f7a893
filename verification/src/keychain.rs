//! The keychain viewer-id observer: a bounded log of intercepted keychain
//! reads, writes and deletions, and the JSON endpoints that page through and
//! clear it.
use vstd::prelude::*;
use std::collections::VecDeque;
use crate::json::{bool_text, lemma_comma_join_push, push_bool, push_quoted_str, push_usize, quoted, comma_join};
use crate::text::{chars_of, dec_text, hex_text, push_dec, push_hex};
use crate::order::first_n;
use crate::uri::{parse_u64, parse_usize, query_value, query_value_chars, unsigned_text_value};

verus! {

/// The most events the log keeps; older ones are evicted first.
pub const MAX_EVENTS: usize = 512;

/// Which keychain method was observed.
#[derive(Clone, Copy, PartialEq, Eq, Structural, Debug)]
pub enum KeychainOperation {
    Read,
    Write,
    Delete,
}

/// The method name reported for an operation.
pub open spec fn operation_name(op: KeychainOperation) -> Seq<char> {
    match op {
        KeychainOperation::Read => "GetKeyChainViewerId"@,
        KeychainOperation::Write => "SetKeyChainViewerId"@,
        KeychainOperation::Delete => "DeleteKeyChainViewerId"@,
    }
}

impl KeychainOperation {
    /// The method name reported for this operation.
    pub fn name(&self) -> (r: &'static str)
        ensures
            r@ == operation_name(*self),
    {
        match self {
            KeychainOperation::Read => "GetKeyChainViewerId",
            KeychainOperation::Write => "SetKeyChainViewerId",
            KeychainOperation::Delete => "DeleteKeyChainViewerId",
        }
    }
}

/// One observed keychain call.
pub struct KeychainEvent {
    pub sequence: u64,
    pub timestamp_ms: u64,
    pub operation: KeychainOperation,
    pub object_address: usize,
    pub value: String,
}

/// The bounded event log with its sequence counter. `wrapped` records
/// whether the counter has ever wrapped past `u64::MAX`.
pub struct KeychainLog {
    events: VecDeque<KeychainEvent>,
    next_sequence: u64,
    wrapped: Ghost<bool>,
}

/// The event log after one more event: the oldest is evicted when the log is
/// full.
pub open spec fn appended(events: Seq<KeychainEvent>, e: KeychainEvent) -> Seq<KeychainEvent> {
    if events.len() >= MAX_EVENTS {
        events.drop_first().push(e)
    } else {
        events.push(e)
    }
}

impl KeychainLog {
    #[verifier::type_invariant]
    spec fn well_formed(self) -> bool {
        &&& self.events@.len() <= MAX_EVENTS
        &&& !self.wrapped@ ==> sequences_increasing(self.events@, self.next_sequence)
    }

    /// The events held, oldest first.
    pub closed spec fn events(self) -> Seq<KeychainEvent> {
        self.events@
    }

    /// The sequence number the next recorded event gets.
    pub closed spec fn next_sequence(self) -> u64 {
        self.next_sequence
    }

    /// Whether the counter has wrapped past `u64::MAX` since the log was
    /// made.
    pub closed spec fn counter_wrapped(self) -> bool {
        self.wrapped@
    }

    /// An empty log whose first event gets sequence number 1.
    pub fn new() -> (r: KeychainLog)
        ensures
            r.events() == Seq::<KeychainEvent>::empty(),
            r.next_sequence() == 1,
            !r.counter_wrapped(),
    {
        KeychainLog { events: VecDeque::new(), next_sequence: 1, wrapped: Ghost(false) }
    }

    /// The number of events held.
    pub fn len(&self) -> (r: usize)
        ensures
            r == self.events().len(),
            r <= MAX_EVENTS,
            !self.counter_wrapped() ==> sequences_increasing(self.events(), self.next_sequence()),
    {
        proof { use_type_invariant(self); }
        self.events.len()
    }

    /// `record`: when capture is enabled, appends an event with the next
    /// sequence number (evicting the oldest event when the log is full) and
    /// advances the counter, wrapping as an atomic `fetch_add` does; when
    /// capture is disabled, nothing changes.
    pub fn record(
        &mut self,
        capture_enabled: bool,
        timestamp_ms: u64,
        operation: KeychainOperation,
        object_address: usize,
        value: String,
    )
        ensures
            !capture_enabled ==> final(self).events() == old(self).events()
                && final(self).next_sequence() == old(self).next_sequence(),
            capture_enabled ==> final(self).events() == appended(
                old(self).events(),
                KeychainEvent {
                    sequence: old(self).next_sequence(),
                    timestamp_ms,
                    operation,
                    object_address,
                    value,
                },
            ),
            capture_enabled ==> final(self).next_sequence() == (if old(self).next_sequence()
                == u64::MAX {
                0
            } else {
                old(self).next_sequence() + 1
            }),
            final(self).events().len() <= MAX_EVENTS,
            final(self).counter_wrapped() == (old(self).counter_wrapped() || (capture_enabled
                && old(self).next_sequence() == u64::MAX)),
            !final(self).counter_wrapped() ==> sequences_increasing(
                final(self).events(),
                final(self).next_sequence(),
            ),
    {
        proof { use_type_invariant(&*self); }
        if !capture_enabled {
            return;
        }
        let sequence = self.next_sequence;
        let ghost was_wrapped = self.wrapped@;
        let ghost old_events = self.events@;
        let event = KeychainEvent { sequence, timestamp_ms, operation, object_address, value };
        let ghost e = event;
        let mut events = VecDeque::new();
        std::mem::swap(&mut events, &mut self.events);
        if events.len() >= MAX_EVENTS {
            events.pop_front();
        }
        events.push_back(event);
        proof {
            assert(events@ =~= appended(old_events, e));
            if !was_wrapped && sequence < u64::MAX {
                lemma_record_keeps_order(old_events, sequence, e);
            }
        }
        let next = if sequence == u64::MAX { 0 } else { sequence + 1 };
        let ghost now_wrapped: bool = was_wrapped || sequence == u64::MAX;
        let wrapped: Ghost<bool> = Ghost(now_wrapped);
        *self = KeychainLog { events, next_sequence: next, wrapped };
    }

    /// Removes every event and reports how many there were; the counter keeps
    /// counting.
    pub fn clear(&mut self) -> (cleared: usize)
        ensures
            cleared == old(self).events().len(),
            final(self).events() == Seq::<KeychainEvent>::empty(),
            final(self).next_sequence() == old(self).next_sequence(),
            final(self).counter_wrapped() == old(self).counter_wrapped(),
    {
        let mut events = VecDeque::new();
        std::mem::swap(&mut events, &mut self.events);
        let n = events.len();
        n
    }
}

} // verus!

verus! {

/// `clear_endpoint`: empties the log and reports `{"ok":true,"cleared":N}`
/// with the number of events removed.
pub fn clear_endpoint(log: &mut KeychainLog) -> (r: String)
    ensures
        final(log).events() == Seq::<KeychainEvent>::empty(),
        final(log).next_sequence() == old(log).next_sequence(),
        final(log).counter_wrapped() == old(log).counter_wrapped(),
        r@ == "{\"ok\":true,\"cleared\":"@ + dec_text(old(log).events().len()) + "}"@,
{
    let cleared = log.clear();
    let mut r = String::new();
    r.append("{\"ok\":true,\"cleared\":");
    push_usize(&mut r, cleared);
    r.append("}");
    r
}

/// Addresses of the three keychain hooks; zero where a hook is not installed.
pub struct KeychainHooks {
    pub read_address: usize,
    pub write_address: usize,
    pub delete_address: usize,
}

/// The events whose sequence number is above `after`, oldest first.
pub open spec fn newer_than(events: Seq<KeychainEvent>, after: u64) -> Seq<KeychainEvent>
    decreases events.len(),
{
    if events.len() == 0 {
        Seq::empty()
    } else if events.last().sequence > after {
        newer_than(events.drop_last(), after).push(events.last())
    } else {
        newer_than(events.drop_last(), after)
    }
}

/// The `after_sequence` parameter: a `u64`, or 0 when absent or malformed.
pub open spec fn requested_after(uri: Seq<char>) -> u64 {
    match unsigned_text_value(query_value(uri, "after_sequence"@)) {
        Some(v) => if v <= u64::MAX { v as u64 } else { 0 },
        None => 0,
    }
}

/// The `limit` parameter (200 when absent or malformed), clamped to
/// `1..=MAX_EVENTS`.
pub open spec fn requested_limit(uri: Seq<char>) -> nat {
    let raw: nat = match unsigned_text_value(query_value(uri, "limit"@)) {
        Some(v) => if v <= usize::MAX { v } else { 200 },
        None => 200,
    };
    if raw < 1 {
        1
    } else if raw > MAX_EVENTS {
        MAX_EVENTS as nat
    } else {
        raw
    }
}

/// The page of events a request selects: the first `limit` events newer than
/// `after`.
pub open spec fn page(events: Seq<KeychainEvent>, uri: Seq<char>) -> Seq<KeychainEvent> {
    first_n(newer_than(events, requested_after(uri)), requested_limit(uri))
}

/// One event as a JSON object.
pub open spec fn event_row(e: KeychainEvent) -> Seq<char> {
    "{\"sequence\":"@ + dec_text(e.sequence as nat) + ",\"timestamp_ms\":"@ + dec_text(
        e.timestamp_ms as nat,
    ) + ",\"operation\":\""@ + operation_name(e.operation) + "\",\"object_address\":\"0x"@
        + hex_text(e.object_address as nat) + "\",\"value\":"@ + quoted(e.value@) + "}"@
}

/// The rows of a page, comma-separated.
pub open spec fn page_rows(events: Seq<KeychainEvent>) -> Seq<char> {
    comma_join(events.map_values(|e: KeychainEvent| event_row(e)))
}

/// Whether a hook is installed, as reported.
pub open spec fn hook_state(address: usize) -> Seq<char> {
    if address == 0 {
        "not_installed"@
    } else {
        "installed"@
    }
}

/// The sequence number a client continues after: the last one returned, or
/// the requested one when the page is empty.
pub open spec fn next_after(selected: Seq<KeychainEvent>, after: u64) -> u64 {
    if selected.len() == 0 {
        after
    } else {
        selected.last().sequence
    }
}

/// The whole endpoint reply for a request.
pub open spec fn endpoint_json(
    events: Seq<KeychainEvent>,
    uri: Seq<char>,
    capture_enabled: bool,
    hooks: KeychainHooks,
) -> Seq<char> {
    let selected = page(events, uri);
    let after = requested_after(uri);
    "{\"ok\":true,\"capture_enabled\":"@ + bool_text(capture_enabled) + ",\"hooks\":{\"get\":\""@
        + hook_state(hooks.read_address) + "\",\"set\":\""@ + hook_state(hooks.write_address)
        + "\",\"delete\":\""@ + hook_state(hooks.delete_address) + "\"},\"after_sequence\":"@
        + dec_text(after as nat) + ",\"next_sequence\":"@ + dec_text(
        next_after(selected, after) as nat,
    ) + ",\"count\":"@ + dec_text(selected.len()) + ",\"events\":["@ + page_rows(selected)
        + "]}"@
}

fn push_event_row(out: &mut String, e: &KeychainEvent)
    ensures
        final(out)@ == old(out)@ + event_row(*e),
{
    out.append("{\"sequence\":");
    push_dec(out, e.sequence);
    out.append(",\"timestamp_ms\":");
    push_dec(out, e.timestamp_ms);
    out.append(",\"operation\":\"");
    out.append(e.operation.name());
    out.append("\",\"object_address\":\"0x");
    push_hex(out, e.object_address as u64);
    out.append("\",\"value\":");
    push_quoted_str(out, e.value.as_str());
    out.append("}");
    assert(final(out)@ =~= old(out)@ + event_row(*e));
}

fn push_hook_state(out: &mut String, address: usize)
    ensures
        final(out)@ == old(out)@ + hook_state(address),
{
    if address == 0 {
        out.append("not_installed");
    } else {
        out.append("installed");
    }
}

/// The `after_sequence` and `limit` parameters of a request.
fn paging_parameters(uri: &str) -> (r: (u64, usize))
    ensures
        r.0 == requested_after(uri@),
        r.1 as nat == requested_limit(uri@),
{
    let chars = chars_of(uri);
    let after_key = chars_of("after_sequence");
    let limit_key = chars_of("limit");
    let after_text = query_value_chars(chars.as_slice(), after_key.as_slice());
    let limit_text = query_value_chars(chars.as_slice(), limit_key.as_slice());
    let after = match parse_u64(after_text.as_slice()) {
        Some(v) => v,
        None => 0,
    };
    let raw = match parse_usize(limit_text.as_slice()) {
        Some(v) => v,
        None => 200,
    };
    let limit = if raw < 1 {
        1
    } else if raw > MAX_EVENTS {
        MAX_EVENTS
    } else {
        raw
    };
    (after, limit)
}

/// `endpoint`: the page of events newer than `after_sequence` (at most
/// `limit` of them, 200 by default, clamped to 1..=512), with the hook states
/// and the sequence number to continue after. No query is rejected: a
/// parameter that is absent or not a number takes its default.
pub fn endpoint(log: &KeychainLog, uri: &str, capture_enabled: bool, hooks: &KeychainHooks) -> (r:
    String)
    ensures
        r@ == endpoint_json(log.events(), uri@, capture_enabled, *hooks),
        !log.counter_wrapped() ==> strictly_increasing(log.events()),
{
    proof { use_type_invariant(log); }
    let (after, limit) = paging_parameters(uri);
    let ghost events = log.events();
    let ghost selected = page(events, uri@);
    let mut rows = String::new();
    let mut count: usize = 0;
    let mut last: u64 = after;
    let n = log.events.len();
    let mut i: usize = 0;
    proof {
        assert(events.take(0) =~= Seq::<KeychainEvent>::empty());
        assert(Seq::<KeychainEvent>::empty().map_values(|x: KeychainEvent| event_row(x)) =~= Seq::<Seq<char>>::empty());
    }
    while i < n
        invariant
            n == events.len(),
            events == log.events@,
            1 <= limit <= MAX_EVENTS,
            i <= n,
            count as nat == if newer_than(events.take(i as int), after).len() < limit {
                newer_than(events.take(i as int), after).len()
            } else {
                limit as nat
            },
            rows@ == page_rows(first_n(newer_than(events.take(i as int), after), limit as nat)),
            last == next_after(first_n(newer_than(events.take(i as int), after), limit as nat), after),
        decreases n - i,
    {
        let e = &log.events[i];
        let ghost before = newer_than(events.take(i as int), after);
        proof {
            assert(events.take(i + 1).drop_last() =~= events.take(i as int));
            assert(events.take(i + 1).last() == events[i as int]);
        }
        if e.sequence > after && count < limit {
            proof {
                assert(*e == events[i as int]);
                assert(first_n(before, limit as nat) == before);
                assert(first_n(before.push(*e), limit as nat) == before.push(*e));
                assert(before.push(*e).map_values(|x: KeychainEvent| event_row(x))
                    =~= before.map_values(|x: KeychainEvent| event_row(x)).push(event_row(*e)));
                lemma_comma_join_push(before.map_values(|x: KeychainEvent| event_row(x)), event_row(*e));
            }
            if count > 0 {
                rows.append(",");
            }
            push_event_row(&mut rows, e);
            last = e.sequence;
            count = count + 1;
        } else {
            proof {
                assert(*e == events[i as int]);
                if e.sequence > after {
                    assert(first_n(before.push(*e), limit as nat) =~= first_n(before, limit as nat));
                }
            }
        }
        i = i + 1;
    }
    proof {
        assert(events.take(n as int) =~= events);
    }
    let mut r = String::new();
    r.append("{\"ok\":true,\"capture_enabled\":");
    push_bool(&mut r, capture_enabled);
    r.append(",\"hooks\":{\"get\":\"");
    push_hook_state(&mut r, hooks.read_address);
    r.append("\",\"set\":\"");
    push_hook_state(&mut r, hooks.write_address);
    r.append("\",\"delete\":\"");
    push_hook_state(&mut r, hooks.delete_address);
    r.append("\"},\"after_sequence\":");
    push_dec(&mut r, after);
    r.append(",\"next_sequence\":");
    push_dec(&mut r, last);
    r.append(",\"count\":");
    push_usize(&mut r, count);
    r.append(",\"events\":[");
    r.append(rows.as_str());
    r.append("]}");
    assert(r@ =~= endpoint_json(events, uri@, capture_enabled, *hooks));
    r
}

} // verus!

verus! {

/// The status a hook attempt reports: the hooked address, or the failure.
pub open spec fn hook_status_text(address: usize, hooked: bool) -> Seq<char> {
    if address != 0 && hooked {
        "hooked@0x"@ + hex_text(address as nat)
    } else {
        "failed: resolve_or_hook"@
    }
}

/// The outcome of trying to hook one keychain method that resolved to
/// `address` (0 when it did not resolve): whether the hook is now installed,
/// and the status to report.
pub fn hook_outcome(address: usize, hooked: bool) -> (r: (bool, String))
    ensures
        r.0 == (address != 0 && hooked),
        r.1@ == hook_status_text(address, hooked),
{
    let mut status = String::new();
    if address != 0 && hooked {
        status.append("hooked@0x");
        push_hex(&mut status, address as u64);
        (true, status)
    } else {
        status.append("failed: resolve_or_hook");
        (false, status)
    }
}

/// Sequence numbers strictly increase along `events`.
pub open spec fn strictly_increasing(events: Seq<KeychainEvent>) -> bool {
    forall|i: int, j: int| 0 <= i < j < events.len() ==> events[i].sequence < events[j].sequence
}

/// Sequence numbers increase along the log and stay below the counter.
pub open spec fn sequences_increasing(events: Seq<KeychainEvent>, next_sequence: u64) -> bool {
    &&& strictly_increasing(events)
    &&& forall|i: int| 0 <= i < events.len() ==> #[trigger] events[i].sequence < next_sequence
}

/// Recording keeps the log bounded and keeps the newest events: the new
/// event is last, and the ones before it are the old log, without its oldest
/// event when the log was full.
pub proof fn lemma_append_keeps_newest(events: Seq<KeychainEvent>, e: KeychainEvent)
    requires
        events.len() <= MAX_EVENTS,
    ensures
        appended(events, e).len() <= MAX_EVENTS,
        appended(events, e).last() == e,
        appended(events, e).drop_last() == if events.len() == MAX_EVENTS {
            events.drop_first()
        } else {
            events
        },
{
    if events.len() == MAX_EVENTS {
        assert(appended(events, e).drop_last() =~= events.drop_first());
    } else {
        assert(appended(events, e).drop_last() =~= events);
    }
}

/// Until the counter wraps, recording keeps sequence numbers increasing
/// along the log and below the counter.
pub proof fn lemma_record_keeps_order(
    events: Seq<KeychainEvent>,
    next_sequence: u64,
    e: KeychainEvent,
)
    requires
        events.len() <= MAX_EVENTS,
        sequences_increasing(events, next_sequence),
        next_sequence < u64::MAX,
        e.sequence == next_sequence,
    ensures
        sequences_increasing(appended(events, e), (next_sequence + 1) as u64),
{
    let a = appended(events, e);
    if events.len() >= MAX_EVENTS {
        assert forall|i: int| 0 <= i < a.len() - 1 implies a[i] == events[i + 1] by {}
    } else {
        assert forall|i: int| 0 <= i < a.len() - 1 implies a[i] == events[i] by {}
    }
    assert forall|i: int, j: int| 0 <= i < j < a.len() implies a[i].sequence < a[j].sequence by {
        if j == a.len() - 1 {
            if events.len() >= MAX_EVENTS {
                assert(events[i + 1].sequence < next_sequence);
            } else {
                assert(events[i].sequence < next_sequence);
            }
        } else if events.len() >= MAX_EVENTS {
            assert(events[i + 1].sequence < events[j + 1].sequence);
        }
    }
    assert forall|i: int| 0 <= i < a.len() implies #[trigger] a[i].sequence < (next_sequence + 1) as u64 by {
        if i < a.len() - 1 {
            if events.len() >= MAX_EVENTS {
                assert(events[i + 1].sequence < next_sequence);
            } else {
                assert(events[i].sequence < next_sequence);
            }
        }
    }
}

proof fn lemma_newer_than(events: Seq<KeychainEvent>, after: u64)
    ensures
        newer_than(events, after).len() <= events.len(),
        forall|i: int| 0 <= i < newer_than(events, after).len() ==> #[trigger] newer_than(events, after)[i].sequence > after,
        forall|i: int| 0 <= i < newer_than(events, after).len() ==> events.contains(#[trigger] newer_than(events, after)[i]),
    decreases events.len(),
{
    if events.len() > 0 {
        let d = events.drop_last();
        lemma_newer_than(d, after);
        assert forall|i: int| 0 <= i < newer_than(d, after).len() implies events.contains(#[trigger] newer_than(d, after)[i]) by {
            let j = choose|j: int| 0 <= j < d.len() && d[j] == newer_than(d, after)[i];
            assert(events[j] == d[j]);
        }
        if events.last().sequence > after {
            assert(events[events.len() - 1] == events.last());
        }
    }
}

/// A page holds between none and `limit` (1 to `MAX_EVENTS`) events, all of
/// them from the log and newer than `after_sequence`; the sequence number to
/// continue after is never below `after_sequence`.
pub proof fn lemma_page_bounds(events: Seq<KeychainEvent>, uri: Seq<char>)
    ensures
        1 <= requested_limit(uri) <= MAX_EVENTS,
        page(events, uri).len() <= requested_limit(uri),
        forall|i: int| 0 <= i < page(events, uri).len() ==> #[trigger] page(events, uri)[i].sequence > requested_after(uri),
        forall|i: int| 0 <= i < page(events, uri).len() ==> events.contains(#[trigger] page(events, uri)[i]),
        next_after(page(events, uri), requested_after(uri)) >= requested_after(uri),
{
    let n = newer_than(events, requested_after(uri));
    lemma_newer_than(events, requested_after(uri));
    let p = page(events, uri);
    assert forall|i: int| 0 <= i < p.len() implies #[trigger] p[i] == n[i] by {}
    if p.len() > 0 {
        assert(p.last() == p[p.len() - 1]);
        assert(p[p.len() - 1].sequence > requested_after(uri));
    }
}

/// Events above `b` among those above `a` are those above `b`, for `b >= a`.
proof fn lemma_newer_than_twice(events: Seq<KeychainEvent>, a: u64, b: u64)
    requires
        a <= b,
    ensures
        newer_than(newer_than(events, a), b) == newer_than(events, b),
    decreases events.len(),
{
    if events.len() > 0 {
        let d = events.drop_last();
        lemma_newer_than_twice(d, a, b);
        if events.last().sequence > a {
            assert(newer_than(events, a).drop_last() =~= newer_than(d, a));
            assert(newer_than(events, a).last() == events.last());
        }
    }
}

/// None of `events` is above `x` when all their sequence numbers are at most
/// `x`.
proof fn lemma_newer_than_none(events: Seq<KeychainEvent>, x: u64)
    requires
        forall|i: int| 0 <= i < events.len() ==> #[trigger] events[i].sequence <= x,
    ensures
        newer_than(events, x) == Seq::<KeychainEvent>::empty(),
    decreases events.len(),
{
    if events.len() > 0 {
        let d = events.drop_last();
        assert forall|i: int| 0 <= i < d.len() implies #[trigger] d[i].sequence <= x by {
            assert(d[i] == events[i]);
        }
        lemma_newer_than_none(d, x);
        assert(events.last() == events[events.len() - 1]);
    }
}

/// In a strictly increasing log, the events above the `k`-th one's sequence
/// number are those after it.
proof fn lemma_newer_than_position(events: Seq<KeychainEvent>, k: int)
    requires
        strictly_increasing(events),
        0 <= k < events.len(),
    ensures
        newer_than(events, events[k].sequence) == events.skip(k + 1),
    decreases events.len(),
{
    let d = events.drop_last();
    let x = events[k].sequence;
    assert(strictly_increasing(d)) by {
        assert forall|i: int, j: int| 0 <= i < j < d.len() implies d[i].sequence < d[j].sequence by {
            assert(d[i] == events[i] && d[j] == events[j]);
        }
    }
    assert(events.last() == events[events.len() - 1]);
    if k == events.len() - 1 {
        assert forall|i: int| 0 <= i < d.len() implies #[trigger] d[i].sequence <= x by {
            assert(d[i] == events[i]);
        }
        lemma_newer_than_none(d, x);
        assert(events.skip(k + 1) =~= Seq::<KeychainEvent>::empty());
    } else {
        assert(d[k] == events[k]);
        lemma_newer_than_position(d, k);
        assert(events.skip(k + 1) =~= d.skip(k + 1).push(events.last()));
    }
}

/// The events above `after` in a strictly increasing log are strictly
/// increasing too.
proof fn lemma_newer_than_increasing(events: Seq<KeychainEvent>, after: u64)
    requires
        strictly_increasing(events),
    ensures
        strictly_increasing(newer_than(events, after)),
    decreases events.len(),
{
    if events.len() > 0 {
        let d = events.drop_last();
        assert(strictly_increasing(d)) by {
            assert forall|i: int, j: int| 0 <= i < j < d.len() implies d[i].sequence < d[j].sequence by {
                assert(d[i] == events[i] && d[j] == events[j]);
            }
        }
        lemma_newer_than_increasing(d, after);
        lemma_newer_than(d, after);
        if events.last().sequence > after {
            let n = newer_than(d, after);
            let m = newer_than(events, after);
            assert(events.last() == events[events.len() - 1]);
            assert forall|i: int, j: int| 0 <= i < j < m.len() implies m[i].sequence < m[j].sequence by {
                if j == m.len() - 1 {
                    assert(m[i] == n[i]);
                    assert(d.contains(n[i]));
                    let w = choose|w: int| 0 <= w < d.len() && d[w] == n[i];
                    assert(d[w] == events[w]);
                } else {
                    assert(m[i] == n[i] && m[j] == n[j]);
                }
            }
        }
    }
}

/// Paging continues without repeat or gap: in a log whose sequence numbers
/// strictly increase, the events above the sequence number a page reports to
/// continue after are exactly the events above `after_sequence` that the
/// page did not list, so a follow-up request with that `after_sequence` pages
/// on from the first event the page left out.
pub proof fn lemma_page_continues(events: Seq<KeychainEvent>, uri: Seq<char>, next_uri: Seq<char>)
    requires
        strictly_increasing(events),
        requested_after(next_uri) == next_after(page(events, uri), requested_after(uri)),
    ensures
        page(events, uri) + newer_than(events, requested_after(next_uri)) == newer_than(
            events,
            requested_after(uri),
        ),
        page(events, next_uri) == first_n(
            newer_than(events, requested_after(uri)).skip(page(events, uri).len() as int),
            requested_limit(next_uri),
        ),
{
    let a = requested_after(uri);
    let n = newer_than(events, a);
    let p = page(events, uri);
    lemma_page_bounds(events, uri);
    lemma_newer_than(events, a);
    assert forall|i: int| 0 <= i < p.len() implies #[trigger] p[i] == n[i] by {}
    let rest = newer_than(events, requested_after(next_uri));
    if p.len() == 0 {
        assert(n.len() == 0);
        assert(rest == n);
        assert(p + rest =~= n);
        assert(n.skip(0) =~= n);
    } else {
        let k = p.len() - 1;
        assert(p.last() == n[k]);
        lemma_newer_than_twice(events, a, n[k].sequence);
        lemma_newer_than_increasing(events, a);
        lemma_newer_than_position(n, k);
        assert(rest == n.skip(k + 1));
        assert(p + rest =~= n);
    }
}

} // verus!
