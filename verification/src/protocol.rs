//! Passive discovery of the game's request send chain: route classification
//! by path name, the known hook chain, the captured candidate routes and the
//! evidence for one captured request.
use vstd::prelude::*;
use crate::json::{bool_text, comma_join, lemma_comma_join_push, push_bool, push_quoted_str, quoted};
use crate::text::{ascii_lower, chars_of, has_sub, hex_text, lower_chars, contains_chars, push_hex};
use crate::uri::{path_chars, url_path, parse_u64, query_value, query_value_chars, unsigned_text_value};
use crate::capture::{CapturedRequest, CapturedResponse, last_request_index, last_response_index, find_last_request, find_last_response, lemma_last_request_index, lemma_last_response_index};
use crate::json::{error_json, json_error, push_quoted, push_usize};
use crate::text::{dec_text, push_dec};
use crate::order::{sorted_by, sorted_elements, text_order, u64_order, texts, text_position, lemma_sorted_is_sorted_elements, lemma_text_order, lemma_u64_order, text_lt};
use crate::order::first_n;
use crate::order::{strict_total_text, ids_in_order};
use std::collections::BTreeSet;

verus! {

/// The most candidate routes listed.
pub const MAX_CANDIDATES: usize = 200;

/// `lower_path`: the lower-cased path of a URL.
pub open spec fn path_key(url: Seq<char>) -> Seq<char> {
    ascii_lower(url_path(url))
}

/// `lower_path` on characters.
pub fn lower_path_chars(url: &[char]) -> (r: Vec<char>)
    ensures
        r@ == path_key(url@),
{
    let p = path_chars(url);
    lower_chars(p.as_slice())
}

/// `lower_path`: the lower-cased path of a URL.
pub fn lower_path(url: &str) -> (r: String)
    ensures
        r@ == path_key(url@),
{
    let chars = chars_of(url);
    let p = lower_path_chars(chars.as_slice());
    crate::json::string_of(p.as_slice())
}

/// Path fragments that mark a route as state-changing.
pub open spec fn destructive_needles() -> Seq<Seq<char>> {
    seq![
        "signup"@, "purchase"@, "buy"@, "gacha"@, "draw"@, "exec_command"@, "exec-command"@,
        "training"@, "race/entry"@, "race_entry"@, "finish"@, "start"@, "claim"@, "receive"@,
        "present/receive"@, "friend/request"@, "delete"@, "remove"@, "update"@, "change"@,
    ]
}

/// Path fragments that suggest a read-only route.
pub open spec fn read_only_needles() -> Seq<Seq<char>> {
    seq![
        "status"@, "version"@, "information"@, "notice"@, "load"@, "list"@, "index"@,
        "profile"@, "configuration"@, "config"@, "master"@, "check"@, "get_"@, "search"@,
    ]
}

/// Some needle occurs in `hay`.
pub open spec fn has_any(hay: Seq<char>, needles: Seq<Seq<char>>) -> bool {
    exists|i: int| 0 <= i < needles.len() && #[trigger] has_sub(hay, needles[i])
}

/// `risk_for_path`: the risk class, the replay policy and whether the route
/// is approved for commit. State-changing fragments win over read-only ones;
/// no route is ever approved.
pub open spec fn risk_of(path: Seq<char>) -> (Seq<char>, Seq<char>, bool) {
    let p = ascii_lower(path);
    if has_any(p, destructive_needles()) {
        ("state_changing_or_unknown"@, "deny_replay_candidate"@, false)
    } else if has_any(p, read_only_needles()) {
        ("likely_read_only_unverified"@, "manual_review_required"@, false)
    } else {
        ("unknown"@, "manual_review_required"@, false)
    }
}

fn destructive_list() -> (v: Vec<&'static str>)
    ensures
        v@.map_values(|s: &str| s@) == destructive_needles(),
{
    let v: Vec<&'static str> = vec![
        "signup", "purchase", "buy", "gacha", "draw", "exec_command", "exec-command",
        "training", "race/entry", "race_entry", "finish", "start", "claim", "receive",
        "present/receive", "friend/request", "delete", "remove", "update", "change",
    ];
    assert(v@.map_values(|s: &str| s@) =~= destructive_needles());
    v
}

fn read_only_list() -> (v: Vec<&'static str>)
    ensures
        v@.map_values(|s: &str| s@) == read_only_needles(),
{
    let v: Vec<&'static str> = vec![
        "status", "version", "information", "notice", "load", "list", "index",
        "profile", "configuration", "config", "master", "check", "get_", "search",
    ];
    assert(v@.map_values(|s: &str| s@) =~= read_only_needles());
    v
}

/// Whether any of `needles` occurs in `hay`.
pub fn contains_any(hay: &[char], needles: &Vec<&str>) -> (b: bool)
    ensures
        b == has_any(hay@, needles@.map_values(|s: &str| s@)),
{
    let ghost texts = needles@.map_values(|s: &str| s@);
    let mut i: usize = 0;
    while i < needles.len()
        invariant
            i <= needles@.len(),
            texts == needles@.map_values(|s: &str| s@),
            forall|j: int| 0 <= j < i ==> !#[trigger] has_sub(hay@, texts[j]),
        decreases needles@.len() - i,
    {
        let n = chars_of(needles[i]);
        if contains_chars(hay, n.as_slice()) {
            assert(has_sub(hay@, texts[i as int]));
            return true;
        }
        i = i + 1;
    }
    false
}

/// `risk_for_path` on characters.
pub fn risk_for_chars(path: &[char]) -> (r: (&'static str, &'static str, bool))
    ensures
        (r.0@, r.1@, r.2) == risk_of(path@),
{
    let p = lower_chars(path);
    if contains_any(p.as_slice(), &destructive_list()) {
        return ("state_changing_or_unknown", "deny_replay_candidate", false);
    }
    if contains_any(p.as_slice(), &read_only_list()) {
        return ("likely_read_only_unverified", "manual_review_required", false);
    }
    ("unknown", "manual_review_required", false)
}

/// `risk_for_path`: classifies a route by the fragments of its path.
pub fn risk_for_path(path: &str) -> (r: (&'static str, &'static str, bool))
    ensures
        (r.0@, r.1@, r.2) == risk_of(path@),
{
    let chars = chars_of(path);
    risk_for_chars(chars.as_slice())
}

/// `address_json`: `null` for an unresolved address, else its hex text quoted.
pub open spec fn address_text(address: usize) -> Seq<char> {
    if address == 0 {
        "null"@
    } else {
        "\"0x"@ + hex_text(address as nat) + "\""@
    }
}

/// `address_json`.
pub fn address_json(address: usize) -> (r: String)
    ensures
        r@ == address_text(address),
{
    let mut r = String::new();
    push_address(&mut r, address);
    r
}

fn push_address(out: &mut String, address: usize)
    ensures
        final(out)@ == old(out)@ + address_text(address),
{
    if address == 0 {
        out.append("null");
    } else {
        out.append("\"0x");
        push_hex(out, address as u64);
        out.append("\"");
    }
    assert(final(out)@ =~= old(out)@ + address_text(address));
}

/// The quoted texts, comma-separated.
pub open spec fn quoted_list(items: Seq<Seq<char>>) -> Seq<char> {
    comma_join(items.map_values(|s: Seq<char>| quoted(s)))
}

/// `hook_json`: one hook of the send chain as a JSON object.
#[verifier::opaque]
pub open spec fn hook_text(
    hook_id: Seq<char>,
    assembly: Seq<char>,
    namespace: Seq<char>,
    class_name: Seq<char>,
    method: Seq<char>,
    params: Seq<Seq<char>>,
    return_type: Seq<char>,
    address: usize,
    boundary: Seq<char>,
) -> Seq<char> {
    "{\"hook_id\":"@ + quoted(hook_id) + ",\"assembly\":"@ + quoted(assembly) + ",\"namespace\":"@
        + quoted(namespace) + ",\"class\":"@ + quoted(class_name) + ",\"method\":"@ + quoted(method)
        + ",\"parameter_types\":["@ + quoted_list(params) + "],\"return_type\":"@ + quoted(
        return_type,
    ) + ",\"target_address\":"@ + address_text(address) + ",\"observed\":"@ + bool_text(
        address != 0,
    ) + ",\"boundary\":"@ + quoted(boundary) + "}"@
}

/// Appends the quoted `items`, comma-separated.
pub fn push_quoted_list(out: &mut String, items: &[&str])
    ensures
        final(out)@ == old(out)@ + quoted_list(items@.map_values(|s: &str| s@)),
{
    let ghost start = out@;
    let ghost texts = items@.map_values(|s: &str| s@);
    let ghost parts = texts.map_values(|s: Seq<char>| quoted(s));
    let mut i: usize = 0;
    while i < items.len()
        invariant
            i <= items@.len(),
            texts == items@.map_values(|s: &str| s@),
            parts == texts.map_values(|s: Seq<char>| quoted(s)),
            out@ == start + comma_join(parts.take(i as int)),
        decreases items@.len() - i,
    {
        proof {
            lemma_comma_join_push(parts.take(i as int), parts[i as int]);
            assert(parts.take(i as int).push(parts[i as int]) =~= parts.take(i + 1));
        }
        if i > 0 {
            out.append(",");
        }
        push_quoted_str(out, items[i]);
        i = i + 1;
    }
    assert(parts.take(items@.len() as int) =~= parts);
}

/// `hook_json`: one hook of the send chain as a JSON object.
pub fn hook_json(
    hook_id: &str,
    assembly: &str,
    namespace: &str,
    class_name: &str,
    method: &str,
    params: &[&str],
    return_type: &str,
    address: usize,
    boundary: &str,
) -> (r: String)
    ensures
        r@ == hook_text(
            hook_id@,
            assembly@,
            namespace@,
            class_name@,
            method@,
            params@.map_values(|s: &str| s@),
            return_type@,
            address,
            boundary@,
        ),
{
    proof { reveal(hook_text); }
    let mut r = String::new();
    r.append("{\"hook_id\":");
    push_quoted_str(&mut r, hook_id);
    r.append(",\"assembly\":");
    push_quoted_str(&mut r, assembly);
    r.append(",\"namespace\":");
    push_quoted_str(&mut r, namespace);
    r.append(",\"class\":");
    push_quoted_str(&mut r, class_name);
    r.append(",\"method\":");
    push_quoted_str(&mut r, method);
    r.append(",\"parameter_types\":[");
    push_quoted_list(&mut r, params);
    r.append("],\"return_type\":");
    push_quoted_str(&mut r, return_type);
    r.append(",\"target_address\":");
    push_address(&mut r, address);
    r.append(",\"observed\":");
    push_bool(&mut r, address != 0);
    r.append(",\"boundary\":");
    push_quoted_str(&mut r, boundary);
    r.append("}");
    r
}

} // verus!

verus! {

/// Resolved addresses of the five hooks of the known send chain; zero where
/// a hook is not resolved.
pub struct SendChainHooks {
    pub compress_request: usize,
    pub post: usize,
    pub unity_send: usize,
    pub unity_complete: usize,
    pub decompress_response: usize,
}

/// The five hooks of the send chain, in chain order.
pub open spec fn chain_hooks(h: SendChainHooks) -> Seq<Seq<char>> {
    seq![
        hook_text("protocol.compress_request"@, "umamusume.dll"@, "Gallop"@, "HttpHelper"@,
            "CompressRequest"@, seq!["System.Byte[]"@], "System.Byte[]"@, h.compress_request,
            "request_plain_to_encoded"@),
        hook_text("protocol.www_post"@, "Cute.Http.Assembly.dll"@, "Cute.Http"@, "WWWRequest"@,
            "Post"@, seq!["System.String"@, "System.Byte[]"@,
            "System.Collections.Generic.Dictionary<System.String,System.String>"@],
            "UnityEngine.Networking.UnityWebRequestAsyncOperation"@, h.post, "game_http_dispatch"@),
        hook_text("protocol.unity_send"@, "UnityEngine.UnityWebRequestModule.dll"@,
            "UnityEngine.Networking"@, "UnityWebRequest"@, "SendWebRequest"@, Seq::empty(),
            "UnityEngine.Networking.UnityWebRequestAsyncOperation"@, h.unity_send,
            "unity_transport_dispatch"@),
        hook_text("protocol.unity_completion"@, "UnityEngine.CoreModule.dll"@, "UnityEngine"@,
            "AsyncOperation"@, "InvokeCompletionEvent"@, Seq::empty(), "System.Void"@,
            h.unity_complete, "unity_transport_completion"@),
        hook_text("protocol.decompress_response"@, "umamusume.dll"@, "Gallop"@, "HttpHelper"@,
            "DecompressResponse"@, seq!["System.Byte[]"@], "System.Byte[]"@,
            h.decompress_response, "encoded_to_response_plain"@),
    ]
}

/// All five hooks are resolved.
pub open spec fn chain_ready(h: SendChainHooks) -> bool {
    h.compress_request != 0 && h.post != 0 && h.unity_send != 0 && h.unity_complete != 0
        && h.decompress_response != 0
}

/// The part of the discovery reply after the hook chain.
pub open spec fn discovery_tail() -> Seq<char> {
    r#"],"unresolved":[{"role":"business_api_entry","examples":["Gallop.SingleModeAPI.SendExecCommand","Gallop.SingleModeRamenAPI.SendExecCommand","SendCheckEvent","SendLoad"],"resolution":"observe_real_call_then_exact_method_probe"},{"role":"request_formatter","resolution":"correlate formatter/serializer call before CompressRequest"},{"role":"response_formatter","resolution":"correlate formatter/deserializer call after DecompressResponse"},{"role":"main_thread_dispatch","resolution":"record thread identity on real calls before commit implementation"}],"next":"capture normal game traffic, inspect /api/protocol/send/candidates, then exact-probe one reviewed route"}"#@
}

/// The discovery reply: the known chain, whether it is fully resolved and how
/// many requests were captured; nothing is mutated and no hook is added.
pub open spec fn discovery_json(h: SendChainHooks, captured: nat, capture_enabled: bool) -> Seq<
    char,
> {
    r#"{"ok":true,"schema_version":1,"mode":"passive_in_game_send_chain_discovery","mutates_game_or_network":false,"adds_new_hooks":false,"capture_enabled":"#@
        + bool_text(capture_enabled) + r#","known_chain_ready":"#@ + bool_text(chain_ready(h))
        + r#","captured_request_count":"#@ + crate::text::dec_text(captured) + r#","chain":["#@
        + comma_join(chain_hooks(h)) + discovery_tail()
}

fn chain_entries(hooks: &SendChainHooks) -> (chain: Vec<String>)
    ensures
        chain@.map_values(|p: String| p@) == chain_hooks(*hooks),
{
    let bytes: Vec<&str> = vec!["System.Byte[]"];
    let post_params: Vec<&str> = vec!["System.String", "System.Byte[]",
        "System.Collections.Generic.Dictionary<System.String,System.String>"];
    let none: Vec<&str> = Vec::new();
    proof {
        assert(bytes@.map_values(|s: &str| s@) =~= seq!["System.Byte[]"@]);
        assert(post_params@.map_values(|s: &str| s@) =~= seq!["System.String"@, "System.Byte[]"@,
            "System.Collections.Generic.Dictionary<System.String,System.String>"@]);
        assert(none@.map_values(|s: &str| s@) =~= Seq::<Seq<char>>::empty());
    }
    let mut chain: Vec<String> = Vec::new();
    chain.push(hook_json("protocol.compress_request", "umamusume.dll", "Gallop", "HttpHelper",
        "CompressRequest", bytes.as_slice(), "System.Byte[]", hooks.compress_request,
        "request_plain_to_encoded"));
    chain.push(hook_json("protocol.www_post", "Cute.Http.Assembly.dll", "Cute.Http", "WWWRequest",
        "Post", post_params.as_slice(),
        "UnityEngine.Networking.UnityWebRequestAsyncOperation", hooks.post, "game_http_dispatch"));
    chain.push(hook_json("protocol.unity_send", "UnityEngine.UnityWebRequestModule.dll",
        "UnityEngine.Networking", "UnityWebRequest", "SendWebRequest", none.as_slice(),
        "UnityEngine.Networking.UnityWebRequestAsyncOperation", hooks.unity_send,
        "unity_transport_dispatch"));
    chain.push(hook_json("protocol.unity_completion", "UnityEngine.CoreModule.dll", "UnityEngine",
        "AsyncOperation", "InvokeCompletionEvent", none.as_slice(), "System.Void", hooks.unity_complete,
        "unity_transport_completion"));
    chain.push(hook_json("protocol.decompress_response", "umamusume.dll", "Gallop", "HttpHelper",
        "DecompressResponse", bytes.as_slice(), "System.Byte[]", hooks.decompress_response,
        "encoded_to_response_plain"));
    assert(chain@.map_values(|p: String| p@) =~= chain_hooks(*hooks));
    chain
}

/// `discovery_endpoint`: the passive description of the send chain.
pub fn discovery_endpoint(hooks: &SendChainHooks, captured_request_count: usize, capture_enabled: bool) -> (r: String)
    ensures
        r@ == discovery_json(*hooks, captured_request_count as nat, capture_enabled),
{
    let chain = chain_entries(hooks);
    let ready = hooks.compress_request != 0 && hooks.post != 0 && hooks.unity_send != 0
        && hooks.unity_complete != 0 && hooks.decompress_response != 0;
    let mut r = String::new();
    r.append(r#"{"ok":true,"schema_version":1,"mode":"passive_in_game_send_chain_discovery","mutates_game_or_network":false,"adds_new_hooks":false,"capture_enabled":"#);
    push_bool(&mut r, capture_enabled);
    r.append(r#","known_chain_ready":"#);
    push_bool(&mut r, ready);
    r.append(r#","captured_request_count":"#);
    crate::json::push_usize(&mut r, captured_request_count);
    r.append(r#","chain":["#);
    crate::json::push_joined(&mut r, &chain);
    r.append(r#"],"unresolved":[{"role":"business_api_entry","examples":["Gallop.SingleModeAPI.SendExecCommand","Gallop.SingleModeRamenAPI.SendExecCommand","SendCheckEvent","SendLoad"],"resolution":"observe_real_call_then_exact_method_probe"},{"role":"request_formatter","resolution":"correlate formatter/serializer call before CompressRequest"},{"role":"response_formatter","resolution":"correlate formatter/deserializer call after DecompressResponse"},{"role":"main_thread_dispatch","resolution":"record thread identity on real calls before commit implementation"}],"next":"capture normal game traffic, inspect /api/protocol/send/candidates, then exact-probe one reviewed route"}"#);
    assert(r@ =~= discovery_json(*hooks, captured_request_count as nat, capture_enabled));
    r
}

} // verus!

verus! {

/// The request id an evidence request names: a positive `u64`.
pub open spec fn requested_id(uri: Seq<char>) -> Option<u64> {
    match unsigned_text_value(query_value(uri, "request_id"@)) {
        Some(v) => if 0 < v <= u64::MAX { Some(v as u64) } else { None },
        None => None,
    }
}

/// The fixed tail of an evidence reply.
pub open spec fn evidence_tail() -> Seq<char> {
    r#","prepare_readiness":{"ready":false,"blockers":["exact business API or reviewed generic send entry not selected","main-thread dispatch contract not verified","server-side idempotence not proven","one-time commit storage not implemented"]},"mutation":{"performed":false,"network_request_sent":false}}"#@
}

/// The evidence reply for a found request, given the size of its latest
/// response if one was captured.
pub open spec fn evidence_body(
    id: u64,
    request: CapturedRequest,
    response_size: Option<nat>,
    post_address: usize,
) -> Seq<char> {
    let path = path_key(request.url@);
    let risk = risk_of(path);
    r#"{"ok":true,"schema_version":1,"request_id":"#@ + dec_text(id as nat) + r#","url":"#@ + quoted(
        request.url@,
    ) + r#","path":"#@ + quoted(path) + r#","method":"#@ + quoted(request.method@)
        + r#","request_plain":{"captured":true,"size":"#@ + dec_text(request.body@.len())
        + r#","hook":"HttpHelper.CompressRequest:input"},"request_dispatch":{"observed":"#@
        + bool_text(post_address != 0)
        + r#","hook":"WWWRequest.Post"},"response_plain":{"captured":"#@ + bool_text(
        response_size is Some,
    ) + r#","size":"#@ + dec_text(
        match response_size {
            Some(n) => n,
            None => 0,
        },
    ) + r#","hook":"HttpHelper.DecompressResponse:output"},"risk":""#@ + risk.0
        + r#"","replay_policy":""#@ + risk.1 + r#"","approved_for_commit":"#@ + bool_text(risk.2)
        + evidence_tail()
}

/// The whole evidence reply for a request URI.
pub open spec fn evidence_json(
    uri: Seq<char>,
    reqs: Seq<CapturedRequest>,
    resps: Seq<CapturedResponse>,
    post_address: usize,
) -> Seq<char> {
    match requested_id(uri) {
        None => error_json("invalid_or_missing_request_id"@),
        Some(id) => match last_request_index(reqs, id) {
            None => error_json("request_id_not_found_or_evicted"@),
            Some(i) => evidence_body(
                id,
                reqs[i],
                match last_response_index(resps, id) {
                    Some(j) => Some(resps[j].body@.len()),
                    None => None,
                },
                post_address,
            ),
        },
    }
}

fn request_id_parameter(uri: &str) -> (r: Option<u64>)
    ensures
        r == requested_id(uri@),
{
    let chars = chars_of(uri);
    let key = chars_of("request_id");
    let text = query_value_chars(chars.as_slice(), key.as_slice());
    match parse_u64(text.as_slice()) {
        Some(v) => if v > 0 { Some(v) } else { None },
        None => None,
    }
}

/// `evidence_endpoint`: what was captured for one request id, with its route
/// classification; never prepares or performs a replay. The query is read
/// leniently (`query_value`), so the only errors are a missing or invalid
/// `request_id` and an id no longer captured.
pub fn evidence_endpoint(
    uri: &str,
    requests: &[CapturedRequest],
    responses: &[CapturedResponse],
    post_address: usize,
) -> (r: String)
    ensures
        r@ == evidence_json(uri@, requests@, responses@, post_address),
{
    let id = match request_id_parameter(uri) {
        Some(v) => v,
        None => return json_error("invalid_or_missing_request_id"),
    };
    let i = match find_last_request(requests, id) {
        Some(i) => i,
        None => return json_error("request_id_not_found_or_evicted"),
    };
    proof {
        lemma_last_request_index(requests@, id);
    }
    let request = &requests[i];
    let response = find_last_response(responses, id);
    proof {
        lemma_last_response_index(responses@, id);
    }
    let url = chars_of(request.url.as_str());
    let method = chars_of(request.method.as_str());
    let path = lower_path_chars(url.as_slice());
    let risk = risk_for_chars(path.as_slice());
    let mut r = String::new();
    r.append(r#"{"ok":true,"schema_version":1,"request_id":"#);
    push_dec(&mut r, id);
    r.append(r#","url":"#);
    push_quoted(&mut r, url.as_slice());
    r.append(r#","path":"#);
    push_quoted(&mut r, path.as_slice());
    r.append(r#","method":"#);
    push_quoted(&mut r, method.as_slice());
    r.append(r#","request_plain":{"captured":true,"size":"#);
    push_usize(&mut r, request.body.len());
    r.append(r#","hook":"HttpHelper.CompressRequest:input"},"request_dispatch":{"observed":"#);
    push_bool(&mut r, post_address != 0);
    r.append(r#","hook":"WWWRequest.Post"},"response_plain":{"captured":"#);
    push_bool(&mut r, response.is_some());
    r.append(r#","size":"#);
    let response_size: usize = match response {
        Some(j) => responses[j].body.len(),
        None => 0,
    };
    push_usize(&mut r, response_size);
    r.append(r#","hook":"HttpHelper.DecompressResponse:output"},"risk":""#);
    r.append(risk.0);
    r.append(r#"","replay_policy":""#);
    r.append(risk.1);
    r.append(r#"","approved_for_commit":"#);
    push_bool(&mut r, risk.2);
    r.append(r#","prepare_readiness":{"ready":false,"blockers":["exact business API or reviewed generic send entry not selected","main-thread dispatch contract not verified","server-side idempotence not proven","one-time commit storage not implemented"]},"mutation":{"performed":false,"network_request_sent":false}}"#);
    assert(r@ =~= evidence_json(uri@, requests@, responses@, post_address));
    r
}

} // verus!

verus! {

/// The route key of a captured request: its lower-cased path.
pub open spec fn request_path(r: CapturedRequest) -> Seq<char> {
    path_key(r.url@)
}

/// The route keys of all captured requests.
pub open spec fn observed_paths(reqs: Seq<CapturedRequest>) -> Set<Seq<char>> {
    reqs.map_values(|r: CapturedRequest| request_path(r)).to_set()
}

/// Index of the first request on route `p`.
pub open spec fn first_with_path(reqs: Seq<CapturedRequest>, p: Seq<char>) -> Option<int>
    decreases reqs.len(),
{
    if reqs.len() == 0 {
        None
    } else {
        match first_with_path(reqs.drop_last(), p) {
            Some(i) => Some(i),
            None => if request_path(reqs.last()) == p {
                Some(reqs.len() - 1)
            } else {
                None
            },
        }
    }
}

/// How many requests were captured on route `p`.
pub open spec fn count_with_path(reqs: Seq<CapturedRequest>, p: Seq<char>) -> nat
    decreases reqs.len(),
{
    if reqs.len() == 0 {
        0
    } else {
        count_with_path(reqs.drop_last(), p) + if request_path(reqs.last()) == p {
            1nat
        } else {
            0nat
        }
    }
}

/// The largest request body captured on route `p`.
pub open spec fn max_body_with_path(reqs: Seq<CapturedRequest>, p: Seq<char>) -> nat
    decreases reqs.len(),
{
    if reqs.len() == 0 {
        0
    } else {
        let m = max_body_with_path(reqs.drop_last(), p);
        if request_path(reqs.last()) == p && reqs.last().body@.len() > m {
            reqs.last().body@.len()
        } else {
            m
        }
    }
}

/// The request ids captured on route `p`.
pub open spec fn ids_with_path(reqs: Seq<CapturedRequest>, p: Seq<char>) -> Set<u64>
    decreases reqs.len(),
{
    if reqs.len() == 0 {
        Set::empty()
    } else if request_path(reqs.last()) == p {
        ids_with_path(reqs.drop_last(), p).insert(reqs.last().request_id)
    } else {
        ids_with_path(reqs.drop_last(), p)
    }
}

/// The last five of increasing ids.
pub open spec fn recent_ids(ids: Seq<u64>) -> Seq<u64> {
    if ids.len() > 5 {
        ids.skip(ids.len() - 5)
    } else {
        ids
    }
}

/// Ids as comma-separated decimals.
pub open spec fn ids_text(ids: Seq<u64>) -> Seq<char> {
    comma_join(ids.map_values(|v: u64| dec_text(v as nat)))
}

/// The fixed end of a candidate row.
pub open spec fn row_note() -> Seq<char> {
    r#","review":{"required":true,"reason":"path-name classification is evidence, not proof of server-side idempotence"}}"#@
}

/// The first half of a candidate row: route, example and figures.
pub open spec fn row_head(p: Seq<char>, url: Seq<char>, method: Seq<char>, count: nat, max_body: nat) -> Seq<char> {
    r#"{"path":"#@ + quoted(p) + r#","example_url":"#@ + quoted(url) + r#","method":"#@ + quoted(
        method,
    ) + r#","observation_count":"#@ + dec_text(count) + r#","max_request_plain_size":"#@ + dec_text(
        max_body,
    )
}

/// The second half of a candidate row: recent ids and classification.
pub open spec fn row_tail(ids: Seq<u64>, risk: (Seq<char>, Seq<char>, bool)) -> Seq<char> {
    r#","recent_request_ids":["#@ + ids_text(recent_ids(ids)) + r#"],"risk":""#@ + risk.0
        + r#"","replay_policy":""#@ + risk.1 + r#"","approved_for_commit":"#@ + bool_text(risk.2)
        + row_note()
}

/// A candidate row from its figures.
pub open spec fn row_text(
    p: Seq<char>,
    url: Seq<char>,
    method: Seq<char>,
    count: nat,
    max_body: nat,
    ids: Seq<u64>,
    risk: (Seq<char>, Seq<char>, bool),
) -> Seq<char> {
    row_head(p, url, method, count, max_body) + row_tail(ids, risk)
}

/// One candidate route: its first example, how often and how large it was
/// seen, its five most recent request ids and its classification.
pub open spec fn candidate_row(reqs: Seq<CapturedRequest>, p: Seq<char>) -> Seq<char> {
    let first = reqs[first_with_path(reqs, p).unwrap()];
    row_text(
        p,
        first.url@,
        first.method@,
        count_with_path(reqs, p),
        max_body_with_path(reqs, p),
        sorted_elements(ids_with_path(reqs, p), u64_order()),
        risk_of(p),
    )
}

/// The routes listed: the first `MAX_CANDIDATES` route keys in order.
pub open spec fn candidate_paths(reqs: Seq<CapturedRequest>) -> Seq<Seq<char>> {
    first_n(sorted_elements(observed_paths(reqs), text_order()), MAX_CANDIDATES as nat)
}

/// The candidates reply.
pub open spec fn candidates_json(reqs: Seq<CapturedRequest>) -> Seq<char> {
    let paths = candidate_paths(reqs);
    r#"{"ok":true,"schema_version":1,"mode":"captured_real_game_routes","mutates_game_or_network":false,"default_deny":true,"automatic_commit_enabled":false,"count":"#@
        + dec_text(paths.len()) + r#","candidates":["#@ + comma_join(
        paths.map_values(|p: Seq<char>| candidate_row(reqs, p)),
    ) + "]}"@
}

/// What is known of the requests on one route.
pub open spec fn route_stats_hold(reqs: Seq<CapturedRequest>, p: Seq<char>, g: RouteGroup) -> bool {
    &&& first_with_path(reqs, p) is Some
    &&& g.url == reqs[first_with_path(reqs, p).unwrap()].url
    &&& g.method == reqs[first_with_path(reqs, p).unwrap()].method
    &&& g.count as nat == count_with_path(reqs, p)
    &&& g.max_body as nat == max_body_with_path(reqs, p)
    &&& g.ids@ == ids_with_path(reqs, p)
}

/// Requests grouped on one route.
pub struct RouteGroup {
    pub url: String,
    pub method: String,
    pub count: usize,
    pub max_body: usize,
    pub ids: BTreeSet<u64>,
}

/// Facts about the per-route figures of a request list.
pub proof fn lemma_route_stats(reqs: Seq<CapturedRequest>, p: Seq<char>)
    ensures
        first_with_path(reqs, p) is Some <==> observed_paths(reqs).contains(p),
        first_with_path(reqs, p) matches Some(k) ==> 0 <= k < reqs.len() && request_path(reqs[k]) == p,
        count_with_path(reqs, p) <= reqs.len(),
        !observed_paths(reqs).contains(p) ==> count_with_path(reqs, p) == 0 && max_body_with_path(
            reqs,
            p,
        ) == 0 && ids_with_path(reqs, p) == Set::<u64>::empty(),
    decreases reqs.len(),
{
    let m = reqs.map_values(|r: CapturedRequest| request_path(r));
    if reqs.len() > 0 {
        let d = reqs.drop_last();
        lemma_route_stats(d, p);
        let md = d.map_values(|r: CapturedRequest| request_path(r));
        assert(m =~= md.push(request_path(reqs.last())));
        assert(observed_paths(reqs) =~= observed_paths(d).insert(request_path(reqs.last()))) by {
            assert forall|x: Seq<char>| m.to_set().contains(x) <==> md.to_set().insert(request_path(reqs.last())).contains(x) by {
                if m.to_set().contains(x) {
                    let i = choose|i: int| 0 <= i < m.len() && m[i] == x;
                    if i < md.len() {
                        assert(md[i] == x);
                    }
                }
                if md.to_set().contains(x) {
                    let i = choose|i: int| 0 <= i < md.len() && md[i] == x;
                    assert(m[i] == x);
                }
                if x == request_path(reqs.last()) {
                    assert(m[m.len() - 1] == x);
                }
            }
        }
        if let Some(k) = first_with_path(d, p) {
            assert(reqs[k] == d[k]);
        }
    } else {
        assert(m.to_set() =~= Set::<Seq<char>>::empty());
        assert(ids_with_path(reqs, p) =~= Set::<u64>::empty());
    }
}

/// Groups the requests by route key: the keys in increasing order, with the
/// figures of each route. The keys are held as a strictly increasing vector
/// of character sequences rather than as the keys of a `BTreeMap<String, _>`:
/// vstd proves `obeys_cmp` for integers but not for `String`, so the order in
/// which such a map hands out its keys could not be proved here.
fn group_requests(reqs: &[CapturedRequest]) -> (r: (Vec<Vec<char>>, Vec<RouteGroup>))
    ensures
        sorted_by(texts(r.0@), text_order()),
        texts(r.0@).to_set() == observed_paths(reqs@),
        r.0@.len() == r.1@.len(),
        forall|g: int| 0 <= g < r.0@.len() ==> #[trigger] route_stats_hold(reqs@, r.0@[g]@, r.1@[g]),
{
    proof {
        lemma_text_order();
        lemma_u64_order();
    }
    let mut keys: Vec<Vec<char>> = Vec::new();
    let mut groups: Vec<RouteGroup> = Vec::new();
    let mut i: usize = 0;
    proof {
        assert(reqs@.take(0).map_values(|r: CapturedRequest| request_path(r)) =~= Seq::<Seq<char>>::empty());
        assert(texts(keys@).to_set() =~= Set::<Seq<char>>::empty());
    }
    while i < reqs.len()
        invariant
            i <= reqs@.len(),
            strict_total_text(),
            sorted_by(texts(keys@), text_order()),
            texts(keys@).to_set() == observed_paths(reqs@.take(i as int)),
            keys@.len() == groups@.len(),
            forall|g: int| 0 <= g < keys@.len() ==> #[trigger] route_stats_hold(reqs@.take(i as int), keys@[g]@, groups@[g]),
        decreases reqs@.len() - i,
    {
        let ghost pre = reqs@.take(i as int);
        let ghost post = reqs@.take(i + 1);
        let req = &reqs[i];
        let url = chars_of(req.url.as_str());
        let path = lower_path_chars(url.as_slice());
        proof {
            assert(post.drop_last() =~= pre);
            assert(post.last() == reqs@[i as int]);
            assert forall|k: int| 0 <= k < i implies #[trigger] post[k] == pre[k] by {}
            lemma_route_stats(pre, path@);
            lemma_route_stats(post, path@);
            assert forall|q: Seq<char>| q != path@ implies #[trigger] observed_paths(post).contains(q) == observed_paths(pre).contains(q) by {
                lemma_route_stats(pre, q);
                lemma_route_stats(post, q);
            }
        }
        let (pos, found) = text_position(&keys, path.as_slice());
        if found {
            let mut grp = groups.remove(pos);
            proof {
                assert(route_stats_hold(pre, keys@[pos as int]@, grp));
                lemma_route_stats(pre, path@);
            }
            grp.count = grp.count + 1;
            if req.body.len() > grp.max_body {
                grp.max_body = req.body.len();
            }
            grp.ids.insert(req.request_id);
            groups.insert(pos, grp);
            proof {
                assert(texts(keys@)[pos as int] == path@);
                assert(observed_paths(post) =~= observed_paths(pre)) by {
                    assert forall|q: Seq<char>| observed_paths(post).contains(q) == observed_paths(pre).contains(q) by {
                        lemma_route_stats(pre, q);
                        lemma_route_stats(post, q);
                        if q == path@ {
                            assert(texts(keys@).to_set().contains(path@));
                        }
                    }
                }
                assert forall|g: int| 0 <= g < keys@.len() implies #[trigger] route_stats_hold(post, keys@[g]@, groups@[g]) by {
                    if g != pos {
                        assert(route_stats_hold(pre, keys@[g]@, groups@[g]));
                        assert(keys@[g]@ != path@) by {
                            if g < pos {
                                assert(text_order()(texts(keys@)[g], texts(keys@)[pos as int]));
                            } else {
                                assert(text_order()(texts(keys@)[pos as int], texts(keys@)[g]));
                            }
                        }
                        lemma_route_stats(pre, keys@[g]@);
                    } else {
                        assert(ids_with_path(post, path@) =~= ids_with_path(pre, path@).insert(req.request_id));
                    }
                }
            }
        } else {
            let ghost before_keys = keys@;
            let ghost before_groups = groups@;
            let mut ids: BTreeSet<u64> = BTreeSet::new();
            ids.insert(req.request_id);
            let grp = RouteGroup {
                url: req.url.clone(),
                method: req.method.clone(),
                count: 1,
                max_body: req.body.len(),
                ids,
            };
            proof {
                assert(!observed_paths(pre).contains(path@)) by {
                    if observed_paths(pre).contains(path@) {
                        assert(texts(keys@).to_set().contains(path@));
                    }
                }
                assert(ids_with_path(post, path@) =~= set![req.request_id]);
                assert(grp.ids@ =~= set![req.request_id]);
                assert(route_stats_hold(post, path@, grp));
            }
            groups.insert(pos, grp);
            keys.insert(pos, path);
            proof {
                assert(texts(keys@) =~= texts(before_keys).insert(pos as int, path@));
                assert forall|k: int| 0 <= k < pos implies #[trigger] text_order()(texts(before_keys)[k], path@) by {
                    assert(text_lt(before_keys[k]@, path@));
                }
                crate::order::lemma_insert_sorted(texts(before_keys), pos as int, path@, text_order());
                assert(observed_paths(post) =~= observed_paths(pre).insert(path@)) by {
                    assert forall|q: Seq<char>| observed_paths(post).contains(q) == observed_paths(pre).insert(path@).contains(q) by {
                        lemma_route_stats(pre, q);
                        lemma_route_stats(post, q);
                    }
                }
                assert forall|g: int| 0 <= g < keys@.len() implies #[trigger] route_stats_hold(post, keys@[g]@, groups@[g]) by {
                    if g < pos {
                        assert(keys@[g] == before_keys[g]);
                        assert(groups@[g] == before_groups[g]);
                        assert(route_stats_hold(pre, before_keys[g]@, before_groups[g]));
                        assert(before_keys[g]@ != path@);
                        lemma_route_stats(pre, before_keys[g]@);
                    } else if g > pos {
                        assert(keys@[g] == before_keys[g - 1]);
                        assert(groups@[g] == before_groups[g - 1]);
                        assert(route_stats_hold(pre, before_keys[g - 1]@, before_groups[g - 1]));
                        assert(before_keys[g - 1]@ != path@) by {
                            assert(texts(before_keys)[g - 1] == before_keys[g - 1]@);
                            assert(texts(before_keys).contains(texts(before_keys)[g - 1]));
                            assert(texts(before_keys).to_set().contains(before_keys[g - 1]@));
                        }
                        lemma_route_stats(pre, before_keys[g - 1]@);
                    }
                }
            }
        }
        i = i + 1;
    }
    proof {
        assert(reqs@.take(reqs@.len() as int) =~= reqs@);
    }
    (keys, groups)
}

} // verus!

verus! {

fn push_recent_ids(out: &mut String, ids: &Vec<u64>)
    ensures
        final(out)@ == old(out)@ + ids_text(recent_ids(ids@)),
{
    let start: usize = if ids.len() > 5 { ids.len() - 5 } else { 0 };
    let ghost shown = recent_ids(ids@);
    let ghost parts = shown.map_values(|v: u64| dec_text(v as nat));
    let ghost base = out@;
    assert(shown =~= ids@.skip(start as int));
    let mut i = start;
    while i < ids.len()
        invariant
            start <= i <= ids@.len(),
            shown =~= ids@.skip(start as int),
            parts == shown.map_values(|v: u64| dec_text(v as nat)),
            out@ == base + comma_join(parts.take(i - start)),
        decreases ids@.len() - i,
    {
        proof {
            lemma_comma_join_push(parts.take(i - start), parts[i - start]);
            assert(parts.take(i - start).push(parts[i - start]) =~= parts.take(i - start + 1));
        }
        if i > start {
            out.append(",");
        }
        push_dec(out, ids[i]);
        i = i + 1;
    }
    assert(parts.take(ids@.len() - start) =~= parts);
}

fn push_row_head(out: &mut String, key: &[char], url: &str, method: &str, count: usize, max_body: usize)
    ensures
        final(out)@ == old(out)@ + row_head(key@, url@, method@, count as nat, max_body as nat),
{
    out.append(r#"{"path":"#);
    push_quoted(out, key);
    out.append(r#","example_url":"#);
    push_quoted_str(out, url);
    out.append(r#","method":"#);
    push_quoted_str(out, method);
    out.append(r#","observation_count":"#);
    push_usize(out, count);
    out.append(r#","max_request_plain_size":"#);
    push_usize(out, max_body);
    assert(final(out)@ =~= old(out)@ + row_head(key@, url@, method@, count as nat, max_body as nat));
}

fn push_row_tail(out: &mut String, ids: &Vec<u64>, risk: (&str, &str, bool))
    ensures
        final(out)@ == old(out)@ + row_tail(ids@, (risk.0@, risk.1@, risk.2)),
{
    out.append(r#","recent_request_ids":["#);
    push_recent_ids(out, ids);
    out.append(r#"],"risk":""#);
    out.append(risk.0);
    out.append(r#"","replay_policy":""#);
    out.append(risk.1);
    out.append(r#"","approved_for_commit":"#);
    push_bool(out, risk.2);
    out.append(r#","review":{"required":true,"reason":"path-name classification is evidence, not proof of server-side idempotence"}}"#);
    assert(final(out)@ =~= old(out)@ + row_tail(ids@, (risk.0@, risk.1@, risk.2)));
}

fn push_candidate_row(out: &mut String, reqs: &[CapturedRequest], key: &Vec<char>, group: &RouteGroup)
    requires
        route_stats_hold(reqs@, key@, *group),
    ensures
        final(out)@ == old(out)@ + candidate_row(reqs@, key@),
{
    let ids = ids_in_order(&group.ids);
    let risk = risk_for_chars(key.as_slice());
    push_row_head(out, key.as_slice(), group.url.as_str(), group.method.as_str(), group.count,
        group.max_body);
    push_row_tail(out, &ids, risk);
    assert(final(out)@ =~= old(out)@ + candidate_row(reqs@, key@));
}

/// `candidates_endpoint`: the captured routes grouped by lower-cased path,
/// in path order (at most `MAX_CANDIDATES`), each with its first example,
/// observation count, largest body, five most recent ids and classification.
pub fn candidates_endpoint(requests: &[CapturedRequest]) -> (r: String)
    ensures
        r@ == candidates_json(requests@),
{
    let (keys, groups) = group_requests(requests);
    proof {
        lemma_text_order();
        lemma_sorted_is_sorted_elements(texts(keys@), text_order());
    }
    let ghost paths = candidate_paths(requests@);
    let ghost parts = paths.map_values(|p: Seq<char>| candidate_row(requests@, p));
    let n: usize = if keys.len() <= MAX_CANDIDATES { keys.len() } else { MAX_CANDIDATES };
    assert(paths =~= texts(keys@).take(n as int));
    let mut rows = String::new();
    let mut g: usize = 0;
    while g < n
        invariant
            n <= keys@.len(),
            keys@.len() == groups@.len(),
            paths =~= texts(keys@).take(n as int),
            parts == paths.map_values(|p: Seq<char>| candidate_row(requests@, p)),
            forall|k: int| 0 <= k < keys@.len() ==> #[trigger] route_stats_hold(requests@, keys@[k]@, groups@[k]),
            g <= n,
            rows@ == comma_join(parts.take(g as int)),
        decreases n - g,
    {
        proof {
            lemma_comma_join_push(parts.take(g as int), parts[g as int]);
            assert(parts.take(g as int).push(parts[g as int]) =~= parts.take(g + 1));
            assert(route_stats_hold(requests@, keys@[g as int]@, groups@[g as int]));
        }
        if g > 0 {
            rows.append(",");
        }
        push_candidate_row(&mut rows, requests, &keys[g], &groups[g]);
        g = g + 1;
    }
    assert(parts.take(n as int) =~= parts);
    let mut r = String::new();
    r.append(r#"{"ok":true,"schema_version":1,"mode":"captured_real_game_routes","mutates_game_or_network":false,"default_deny":true,"automatic_commit_enabled":false,"count":"#);
    push_usize(&mut r, n);
    r.append(r#","candidates":["#);
    r.append(rows.as_str());
    r.append("]}");
    assert(r@ =~= candidates_json(requests@));
    r
}

} // verus!

verus! {

/// No route is ever approved for commit; a state-changing fragment
/// anywhere in the path decides the class, whatever else the path holds.
pub proof fn lemma_never_approved(path: Seq<char>)
    ensures
        risk_of(path).2 == false,
        has_any(ascii_lower(path), destructive_needles()) ==> risk_of(path).0
            == "state_changing_or_unknown"@ && risk_of(path).1 == "deny_replay_candidate"@,
        !has_any(ascii_lower(path), destructive_needles()) ==> risk_of(path).1
            == "manual_review_required"@,
{
}

/// The candidate list holds at most `MAX_CANDIDATES` routes, each observed,
/// in strictly increasing path order, and every listed route has a first
/// example and at least one observation.
pub proof fn lemma_candidate_paths(reqs: Seq<CapturedRequest>)
    ensures
        candidate_paths(reqs).len() <= MAX_CANDIDATES,
        sorted_by(candidate_paths(reqs), text_order()),
        forall|i: int| 0 <= i < candidate_paths(reqs).len() ==> observed_paths(reqs).contains(#[trigger] candidate_paths(reqs)[i]),
        forall|i: int| 0 <= i < candidate_paths(reqs).len() ==> first_with_path(reqs, #[trigger] candidate_paths(reqs)[i]) is Some
            && count_with_path(reqs, candidate_paths(reqs)[i]) >= 1,
{
    let w = observed_paths_in_order(reqs);
    lemma_text_order();
    lemma_sorted_is_sorted_elements(w, text_order());
    let c = candidate_paths(reqs);
    assert forall|i: int| 0 <= i < c.len() implies observed_paths(reqs).contains(#[trigger] c[i]) && first_with_path(reqs, c[i]) is Some
        && count_with_path(reqs, c[i]) >= 1 by {
        assert(c[i] == w[i]);
        assert(w.to_set().contains(w[i]));
        lemma_route_stats(reqs, c[i]);
        lemma_count_positive(reqs, c[i]);
    }
    assert forall|i: int, j: int| 0 <= i < j < c.len() implies #[trigger] text_order()(c[i], c[j]) by {
        assert(c[i] == w[i]);
        assert(c[j] == w[j]);
    }
}

/// The route keys in increasing order, built from the requests.
proof fn observed_paths_in_order(reqs: Seq<CapturedRequest>) -> (w: Seq<Seq<char>>)
    ensures
        sorted_by(w, text_order()),
        w.to_set() == observed_paths(reqs),
    decreases reqs.len(),
{
    lemma_text_order();
    if reqs.len() == 0 {
        let w = Seq::<Seq<char>>::empty();
        assert(reqs.map_values(|r: CapturedRequest| request_path(r)) =~= Seq::<Seq<char>>::empty());
        assert(w.to_set() =~= observed_paths(reqs));
        w
    } else {
        let d = reqs.drop_last();
        let wd = observed_paths_in_order(d);
        let p = request_path(reqs.last());
        lemma_route_stats(reqs, p);
        assert(observed_paths(reqs) =~= observed_paths(d).insert(p)) by {
            assert forall|q: Seq<char>| observed_paths(reqs).contains(q) == observed_paths(d).insert(p).contains(q) by {
                let m = reqs.map_values(|r: CapturedRequest| request_path(r));
                let md = d.map_values(|r: CapturedRequest| request_path(r));
                assert(m =~= md.push(p));
                if m.to_set().contains(q) {
                    let i = choose|i: int| 0 <= i < m.len() && m[i] == q;
                    if i < md.len() {
                        assert(md[i] == q);
                    }
                }
                if md.to_set().contains(q) {
                    let i = choose|i: int| 0 <= i < md.len() && md[i] == q;
                    assert(m[i] == q);
                }
                if q == p {
                    assert(m[m.len() - 1] == q);
                }
            }
        }
        sorted_insert_point(wd, p)
    }
}

/// Adding one text to a strictly sorted sequence of texts.
proof fn sorted_insert_point(w: Seq<Seq<char>>, p: Seq<char>) -> (r: Seq<Seq<char>>)
    requires
        sorted_by(w, text_order()),
    ensures
        sorted_by(r, text_order()),
        r.to_set() == w.to_set().insert(p),
    decreases w.len(),
{
    lemma_text_order();
    if w.contains(p) {
        assert(w.to_set().insert(p) =~= w.to_set());
        w
    } else {
        let pos = choose_position(w, p, 0);
        crate::order::lemma_insert_sorted(w, pos, p, text_order());
        w.insert(pos, p)
    }
}

/// The first position whose element is above `p`, from `i` on.
proof fn choose_position(w: Seq<Seq<char>>, p: Seq<char>, i: int) -> (pos: int)
    requires
        sorted_by(w, text_order()),
        !w.contains(p),
        0 <= i <= w.len(),
        forall|k: int| 0 <= k < i ==> #[trigger] text_lt(w[k], p),
    ensures
        0 <= pos <= w.len(),
        forall|k: int| 0 <= k < pos ==> #[trigger] text_order()(w[k], p),
        pos == w.len() || text_order()(p, w[pos]),
    decreases w.len() - i,
{
    lemma_text_order();
    if i == w.len() {
        i
    } else if text_lt(w[i], p) {
        choose_position(w, p, i + 1)
    } else {
        assert(w[i] != p);
        assert(text_order()(p, w[i]) || text_order()(w[i], p));
        i
    }
}

proof fn lemma_count_positive(reqs: Seq<CapturedRequest>, p: Seq<char>)
    requires
        first_with_path(reqs, p) is Some,
    ensures
        count_with_path(reqs, p) >= 1,
    decreases reqs.len(),
{
    if first_with_path(reqs.drop_last(), p) is Some {
        lemma_count_positive(reqs.drop_last(), p);
    }
}


/// Route classes over the literal fragments: with none of the state-changing
/// fragments in the lower-cased path, a path holding one of the read-only
/// fragments is `likely_read_only_unverified` and any other is `unknown`;
/// a state-changing fragment makes it `state_changing_or_unknown`.
pub proof fn lemma_risk_fragments(path: Seq<char>)
    ensures
        ({
            let p = ascii_lower(path);
            let changing = has_sub(p, "signup"@) ||
                has_sub(p, "purchase"@) ||
                has_sub(p, "buy"@) ||
                has_sub(p, "gacha"@) ||
                has_sub(p, "draw"@) ||
                has_sub(p, "exec_command"@) ||
                has_sub(p, "exec-command"@) ||
                has_sub(p, "training"@) ||
                has_sub(p, "race/entry"@) ||
                has_sub(p, "race_entry"@) ||
                has_sub(p, "finish"@) ||
                has_sub(p, "start"@) ||
                has_sub(p, "claim"@) ||
                has_sub(p, "receive"@) ||
                has_sub(p, "present/receive"@) ||
                has_sub(p, "friend/request"@) ||
                has_sub(p, "delete"@) ||
                has_sub(p, "remove"@) ||
                has_sub(p, "update"@) ||
                has_sub(p, "change"@);
            let reading = has_sub(p, "status"@) ||
                has_sub(p, "version"@) ||
                has_sub(p, "information"@) ||
                has_sub(p, "notice"@) ||
                has_sub(p, "load"@) ||
                has_sub(p, "list"@) ||
                has_sub(p, "index"@) ||
                has_sub(p, "profile"@) ||
                has_sub(p, "configuration"@) ||
                has_sub(p, "config"@) ||
                has_sub(p, "master"@) ||
                has_sub(p, "check"@) ||
                has_sub(p, "get_"@) ||
                has_sub(p, "search"@);
            &&& changing ==> risk_of(path).0 == "state_changing_or_unknown"@
            &&& !changing && reading ==> risk_of(path).0 == "likely_read_only_unverified"@
            &&& !changing && !reading ==> risk_of(path).0 == "unknown"@
        }),
{
    let p = ascii_lower(path);
    if has_any(p, destructive_needles()) {
        let i = choose|i: int| 0 <= i < destructive_needles().len() && #[trigger] has_sub(p, destructive_needles()[i]);
        if i == 0 {
            assert(destructive_needles()[0] == "signup"@);
        } else if i == 1 {
            assert(destructive_needles()[1] == "purchase"@);
        } else if i == 2 {
            assert(destructive_needles()[2] == "buy"@);
        } else if i == 3 {
            assert(destructive_needles()[3] == "gacha"@);
        } else if i == 4 {
            assert(destructive_needles()[4] == "draw"@);
        } else if i == 5 {
            assert(destructive_needles()[5] == "exec_command"@);
        } else if i == 6 {
            assert(destructive_needles()[6] == "exec-command"@);
        } else if i == 7 {
            assert(destructive_needles()[7] == "training"@);
        } else if i == 8 {
            assert(destructive_needles()[8] == "race/entry"@);
        } else if i == 9 {
            assert(destructive_needles()[9] == "race_entry"@);
        } else if i == 10 {
            assert(destructive_needles()[10] == "finish"@);
        } else if i == 11 {
            assert(destructive_needles()[11] == "start"@);
        } else if i == 12 {
            assert(destructive_needles()[12] == "claim"@);
        } else if i == 13 {
            assert(destructive_needles()[13] == "receive"@);
        } else if i == 14 {
            assert(destructive_needles()[14] == "present/receive"@);
        } else if i == 15 {
            assert(destructive_needles()[15] == "friend/request"@);
        } else if i == 16 {
            assert(destructive_needles()[16] == "delete"@);
        } else if i == 17 {
            assert(destructive_needles()[17] == "remove"@);
        } else if i == 18 {
            assert(destructive_needles()[18] == "update"@);
        } else if i == 19 {
            assert(destructive_needles()[19] == "change"@);
        }
    }
    if has_sub(p, "signup"@) {
        assert(destructive_needles()[0] == "signup"@);
        assert(has_sub(p, destructive_needles()[0]));
    }
    if has_sub(p, "purchase"@) {
        assert(destructive_needles()[1] == "purchase"@);
        assert(has_sub(p, destructive_needles()[1]));
    }
    if has_sub(p, "buy"@) {
        assert(destructive_needles()[2] == "buy"@);
        assert(has_sub(p, destructive_needles()[2]));
    }
    if has_sub(p, "gacha"@) {
        assert(destructive_needles()[3] == "gacha"@);
        assert(has_sub(p, destructive_needles()[3]));
    }
    if has_sub(p, "draw"@) {
        assert(destructive_needles()[4] == "draw"@);
        assert(has_sub(p, destructive_needles()[4]));
    }
    if has_sub(p, "exec_command"@) {
        assert(destructive_needles()[5] == "exec_command"@);
        assert(has_sub(p, destructive_needles()[5]));
    }
    if has_sub(p, "exec-command"@) {
        assert(destructive_needles()[6] == "exec-command"@);
        assert(has_sub(p, destructive_needles()[6]));
    }
    if has_sub(p, "training"@) {
        assert(destructive_needles()[7] == "training"@);
        assert(has_sub(p, destructive_needles()[7]));
    }
    if has_sub(p, "race/entry"@) {
        assert(destructive_needles()[8] == "race/entry"@);
        assert(has_sub(p, destructive_needles()[8]));
    }
    if has_sub(p, "race_entry"@) {
        assert(destructive_needles()[9] == "race_entry"@);
        assert(has_sub(p, destructive_needles()[9]));
    }
    if has_sub(p, "finish"@) {
        assert(destructive_needles()[10] == "finish"@);
        assert(has_sub(p, destructive_needles()[10]));
    }
    if has_sub(p, "start"@) {
        assert(destructive_needles()[11] == "start"@);
        assert(has_sub(p, destructive_needles()[11]));
    }
    if has_sub(p, "claim"@) {
        assert(destructive_needles()[12] == "claim"@);
        assert(has_sub(p, destructive_needles()[12]));
    }
    if has_sub(p, "receive"@) {
        assert(destructive_needles()[13] == "receive"@);
        assert(has_sub(p, destructive_needles()[13]));
    }
    if has_sub(p, "present/receive"@) {
        assert(destructive_needles()[14] == "present/receive"@);
        assert(has_sub(p, destructive_needles()[14]));
    }
    if has_sub(p, "friend/request"@) {
        assert(destructive_needles()[15] == "friend/request"@);
        assert(has_sub(p, destructive_needles()[15]));
    }
    if has_sub(p, "delete"@) {
        assert(destructive_needles()[16] == "delete"@);
        assert(has_sub(p, destructive_needles()[16]));
    }
    if has_sub(p, "remove"@) {
        assert(destructive_needles()[17] == "remove"@);
        assert(has_sub(p, destructive_needles()[17]));
    }
    if has_sub(p, "update"@) {
        assert(destructive_needles()[18] == "update"@);
        assert(has_sub(p, destructive_needles()[18]));
    }
    if has_sub(p, "change"@) {
        assert(destructive_needles()[19] == "change"@);
        assert(has_sub(p, destructive_needles()[19]));
    }
    if has_any(p, read_only_needles()) {
        let i = choose|i: int| 0 <= i < read_only_needles().len() && #[trigger] has_sub(p, read_only_needles()[i]);
        if i == 0 {
            assert(read_only_needles()[0] == "status"@);
        } else if i == 1 {
            assert(read_only_needles()[1] == "version"@);
        } else if i == 2 {
            assert(read_only_needles()[2] == "information"@);
        } else if i == 3 {
            assert(read_only_needles()[3] == "notice"@);
        } else if i == 4 {
            assert(read_only_needles()[4] == "load"@);
        } else if i == 5 {
            assert(read_only_needles()[5] == "list"@);
        } else if i == 6 {
            assert(read_only_needles()[6] == "index"@);
        } else if i == 7 {
            assert(read_only_needles()[7] == "profile"@);
        } else if i == 8 {
            assert(read_only_needles()[8] == "configuration"@);
        } else if i == 9 {
            assert(read_only_needles()[9] == "config"@);
        } else if i == 10 {
            assert(read_only_needles()[10] == "master"@);
        } else if i == 11 {
            assert(read_only_needles()[11] == "check"@);
        } else if i == 12 {
            assert(read_only_needles()[12] == "get_"@);
        } else if i == 13 {
            assert(read_only_needles()[13] == "search"@);
        }
    }
    if has_sub(p, "status"@) {
        assert(read_only_needles()[0] == "status"@);
        assert(has_sub(p, read_only_needles()[0]));
    }
    if has_sub(p, "version"@) {
        assert(read_only_needles()[1] == "version"@);
        assert(has_sub(p, read_only_needles()[1]));
    }
    if has_sub(p, "information"@) {
        assert(read_only_needles()[2] == "information"@);
        assert(has_sub(p, read_only_needles()[2]));
    }
    if has_sub(p, "notice"@) {
        assert(read_only_needles()[3] == "notice"@);
        assert(has_sub(p, read_only_needles()[3]));
    }
    if has_sub(p, "load"@) {
        assert(read_only_needles()[4] == "load"@);
        assert(has_sub(p, read_only_needles()[4]));
    }
    if has_sub(p, "list"@) {
        assert(read_only_needles()[5] == "list"@);
        assert(has_sub(p, read_only_needles()[5]));
    }
    if has_sub(p, "index"@) {
        assert(read_only_needles()[6] == "index"@);
        assert(has_sub(p, read_only_needles()[6]));
    }
    if has_sub(p, "profile"@) {
        assert(read_only_needles()[7] == "profile"@);
        assert(has_sub(p, read_only_needles()[7]));
    }
    if has_sub(p, "configuration"@) {
        assert(read_only_needles()[8] == "configuration"@);
        assert(has_sub(p, read_only_needles()[8]));
    }
    if has_sub(p, "config"@) {
        assert(read_only_needles()[9] == "config"@);
        assert(has_sub(p, read_only_needles()[9]));
    }
    if has_sub(p, "master"@) {
        assert(read_only_needles()[10] == "master"@);
        assert(has_sub(p, read_only_needles()[10]));
    }
    if has_sub(p, "check"@) {
        assert(read_only_needles()[11] == "check"@);
        assert(has_sub(p, read_only_needles()[11]));
    }
    if has_sub(p, "get_"@) {
        assert(read_only_needles()[12] == "get_"@);
        assert(has_sub(p, read_only_needles()[12]));
    }
    if has_sub(p, "search"@) {
        assert(read_only_needles()[13] == "search"@);
        assert(has_sub(p, read_only_needles()[13]));
    }
}

/// The chain counts as ready exactly when all five hooks resolved; in
/// particular an unresolved completion hook keeps it not ready.
pub proof fn lemma_chain_ready(h: SendChainHooks)
    ensures
        chain_ready(h) <==> (h.compress_request != 0 && h.post != 0 && h.unity_send != 0
            && h.unity_complete != 0 && h.decompress_response != 0),
        h.unity_complete == 0 ==> !chain_ready(h),
{
}

/// The largest body reported for a route is at least the body of every
/// captured request on it and is the body of one of them (0 when none),
/// whatever the order of the requests.
pub proof fn lemma_max_body(reqs: Seq<CapturedRequest>, p: Seq<char>)
    ensures
        forall|i: int|
            0 <= i < reqs.len() && path_key(reqs[i].url@) == p ==> #[trigger] reqs[i].body@.len()
                <= max_body_with_path(reqs, p),
        (exists|i: int| 0 <= i < reqs.len() && path_key(reqs[i].url@) == p) ==> exists|i: int|
            0 <= i < reqs.len() && path_key(reqs[i].url@) == p && #[trigger] reqs[i].body@.len()
                == max_body_with_path(reqs, p),
        (forall|i: int| 0 <= i < reqs.len() ==> path_key(#[trigger] reqs[i].url@) != p)
            ==> max_body_with_path(reqs, p) == 0,
    decreases reqs.len(),
{
    if reqs.len() > 0 {
        let d = reqs.drop_last();
        let n = reqs.len() - 1;
        lemma_max_body(d, p);
        assert(reqs.last() == reqs[n]);
        assert forall|i: int| 0 <= i < n implies #[trigger] reqs[i] == d[i] by {}
        assert forall|i: int|
            0 <= i < reqs.len() && path_key(reqs[i].url@) == p implies #[trigger] reqs[i].body@.len()
                <= max_body_with_path(reqs, p) by {
            if i < n {
                assert(reqs[i] == d[i]);
            }
        }
        if exists|i: int| 0 <= i < reqs.len() && path_key(reqs[i].url@) == p {
            if path_key(reqs[n].url@) == p && reqs[n].body@.len() > max_body_with_path(d, p) {
                assert(reqs[n].body@.len() == max_body_with_path(reqs, p));
            } else if exists|i: int| 0 <= i < d.len() && path_key(d[i].url@) == p {
                let i = choose|i: int| 0 <= i < d.len() && path_key(d[i].url@) == p && #[trigger] d[i].body@.len()
                    == max_body_with_path(d, p);
                assert(reqs[i] == d[i]);
                assert(reqs[i].body@.len() == max_body_with_path(reqs, p));
            } else {
                assert forall|i: int| 0 <= i < d.len() implies path_key(#[trigger] d[i].url@) != p by {}
                assert(reqs[n].body@.len() == max_body_with_path(reqs, p));
            }
        }
        if forall|i: int| 0 <= i < reqs.len() ==> path_key(#[trigger] reqs[i].url@) != p {
            assert forall|i: int| 0 <= i < d.len() implies path_key(#[trigger] d[i].url@) != p by {
                assert(reqs[i] == d[i]);
            }
        }
    }
}

} // verus!
