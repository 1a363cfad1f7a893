use hachimi_ura_plugin::capture::{CapturedRequest, CapturedResponse};
use hachimi_ura_plugin::protocol::{
    address_json, candidates_endpoint, discovery_endpoint, evidence_endpoint, hook_json,
    lower_path, risk_for_path, SendChainHooks,
};

fn request(id: u64, url: &str, method: &str, size: usize) -> CapturedRequest {
    CapturedRequest { request_id: id, url: url.to_string(), method: method.to_string(), body: vec![0u8; size] }
}

#[test]
fn lower_path_lowercases_the_path_only() {
    assert_eq!(lower_path("https://Host.Example/Api/Load/Index?X=1"), "/api/load/index");
    assert_eq!(lower_path("/Direct/PATH#Frag"), "/direct/path");
    assert_eq!(lower_path("https://HOST"), "/");
}

#[test]
fn risk_classification() {
    assert_eq!(risk_for_path("/Gacha/Exec"), ("state_changing_or_unknown", "deny_replay_candidate", false));
    assert_eq!(risk_for_path("/load/index"), ("likely_read_only_unverified", "manual_review_required", false));
    assert_eq!(risk_for_path("/foo/bar"), ("unknown", "manual_review_required", false));
    // a state-changing fragment wins over a read-only one
    assert_eq!(risk_for_path("/startup_status"), ("state_changing_or_unknown", "deny_replay_candidate", false));
    assert_eq!(risk_for_path("/USER/GET_INFO"), ("likely_read_only_unverified", "manual_review_required", false));
}

#[test]
fn addresses_render_as_hex_or_null() {
    assert_eq!(address_json(0), "null");
    assert_eq!(address_json(0xabc), "\"0xabc\"");
}

#[test]
fn hook_json_renders_one_hook() {
    let out = hook_json("h.id", "a.dll", "Ns", "Cls", "M", &["System.Byte[]", "T\"q"], "R", 0x10, "b");
    assert_eq!(
        out,
        r#"{"hook_id":"h.id","assembly":"a.dll","namespace":"Ns","class":"Cls","method":"M","parameter_types":["System.Byte[]","T\"q"],"return_type":"R","target_address":"0x10","observed":true,"boundary":"b"}"#
    );
    let none = hook_json("x", "y", "z", "c", "m", &[], "r", 0, "w");
    assert!(none.contains(r#""parameter_types":[],"#));
    assert!(none.contains(r#""target_address":null,"observed":false,"#));
}

#[test]
fn discovery_reports_the_chain() {
    let hooks = SendChainHooks { compress_request: 1, post: 2, unity_send: 3, unity_complete: 4, decompress_response: 5 };
    let out = discovery_endpoint(&hooks, 7, true);
    assert!(out.starts_with(r#"{"ok":true,"schema_version":1,"mode":"passive_in_game_send_chain_discovery","mutates_game_or_network":false,"adds_new_hooks":false,"capture_enabled":true,"known_chain_ready":true,"captured_request_count":7,"chain":[{"hook_id":"protocol.compress_request","#));
    assert!(out.contains(r#"{"hook_id":"protocol.www_post","assembly":"Cute.Http.Assembly.dll","namespace":"Cute.Http","class":"WWWRequest","method":"Post","parameter_types":["System.String","System.Byte[]","System.Collections.Generic.Dictionary<System.String,System.String>"],"return_type":"UnityEngine.Networking.UnityWebRequestAsyncOperation","target_address":"0x2","observed":true,"boundary":"game_http_dispatch"}"#));
    assert!(out.ends_with(r#""next":"capture normal game traffic, inspect /api/protocol/send/candidates, then exact-probe one reviewed route"}"#));
    let partial = SendChainHooks { compress_request: 1, post: 0, unity_send: 3, unity_complete: 4, decompress_response: 5 };
    assert!(discovery_endpoint(&partial, 0, false).contains(r#""capture_enabled":false,"known_chain_ready":false,"captured_request_count":0,"#));
}

#[test]
fn candidates_group_by_lower_path_in_order() {
    let reqs = vec![
        request(1, "https://h/B/load", "POST", 10),
        request(2, "https://h/a/signup", "POST", 5),
        request(3, "https://h/b/LOAD?x=1", "GET", 20),
    ];
    let out = candidates_endpoint(&reqs);
    assert_eq!(
        out,
        r#"{"ok":true,"schema_version":1,"mode":"captured_real_game_routes","mutates_game_or_network":false,"default_deny":true,"automatic_commit_enabled":false,"count":2,"candidates":[{"path":"/a/signup","example_url":"https://h/a/signup","method":"POST","observation_count":1,"max_request_plain_size":5,"recent_request_ids":[2],"risk":"state_changing_or_unknown","replay_policy":"deny_replay_candidate","approved_for_commit":false,"review":{"required":true,"reason":"path-name classification is evidence, not proof of server-side idempotence"}},{"path":"/b/load","example_url":"https://h/B/load","method":"POST","observation_count":2,"max_request_plain_size":20,"recent_request_ids":[1,3],"risk":"likely_read_only_unverified","replay_policy":"manual_review_required","approved_for_commit":false,"review":{"required":true,"reason":"path-name classification is evidence, not proof of server-side idempotence"}}]}"#
    );
}

#[test]
fn candidates_keep_five_most_recent_ids_and_at_most_two_hundred_routes() {
    let mut reqs = Vec::new();
    for id in [9u64, 3, 7, 1, 8, 2, 7] {
        reqs.push(request(id, "https://h/x", "GET", 1));
    }
    let out = candidates_endpoint(&reqs);
    assert!(out.contains(r#""observation_count":7,"#));
    assert!(out.contains(r#""recent_request_ids":[3,7,8,9]"#) == false);
    assert!(out.contains(r#""recent_request_ids":[2,3,7,8,9]"#));
    let mut many = Vec::new();
    for i in 0..250u64 {
        many.push(request(i, &format!("https://h/r{:03}", i), "GET", 0));
    }
    let out = candidates_endpoint(&many);
    assert!(out.contains(r#""count":200,"#));
    assert!(out.contains(r#""path":"/r199""#));
    assert!(!out.contains(r#""path":"/r200""#));
    assert_eq!(candidates_endpoint(&[]), r#"{"ok":true,"schema_version":1,"mode":"captured_real_game_routes","mutates_game_or_network":false,"default_deny":true,"automatic_commit_enabled":false,"count":0,"candidates":[]}"#);
}

#[test]
fn evidence_for_one_request() {
    let reqs = vec![request(4, "https://h/Load/Index", "POST", 3), request(4, "https://h/gacha/exec", "PUT", 6)];
    let resps = vec![CapturedResponse { request_id: 4, body: vec![1, 2] }, CapturedResponse { request_id: 5, body: vec![] }];
    let out = evidence_endpoint("/api/protocol/send/evidence?request_id=4", &reqs, &resps, 0x99);
    assert_eq!(
        out,
        r#"{"ok":true,"schema_version":1,"request_id":4,"url":"https://h/gacha/exec","path":"/gacha/exec","method":"PUT","request_plain":{"captured":true,"size":6,"hook":"HttpHelper.CompressRequest:input"},"request_dispatch":{"observed":true,"hook":"WWWRequest.Post"},"response_plain":{"captured":true,"size":2,"hook":"HttpHelper.DecompressResponse:output"},"risk":"state_changing_or_unknown","replay_policy":"deny_replay_candidate","approved_for_commit":false,"prepare_readiness":{"ready":false,"blockers":["exact business API or reviewed generic send entry not selected","main-thread dispatch contract not verified","server-side idempotence not proven","one-time commit storage not implemented"]},"mutation":{"performed":false,"network_request_sent":false}}"#
    );
    let no_response = evidence_endpoint("/e?request_id=4", &reqs, &[], 0);
    assert!(no_response.contains(r#""request_dispatch":{"observed":false,"#));
    assert!(no_response.contains(r#""response_plain":{"captured":false,"size":0,"#));
}

#[test]
fn evidence_errors() {
    let reqs = vec![request(4, "https://h/x", "GET", 0)];
    assert_eq!(evidence_endpoint("/e?request_id=0", &reqs, &[], 0), r#"{"ok":false,"error":"invalid_or_missing_request_id"}"#);
    assert_eq!(evidence_endpoint("/e", &reqs, &[], 0), r#"{"ok":false,"error":"invalid_or_missing_request_id"}"#);
    assert_eq!(evidence_endpoint("/e?request_id=x", &reqs, &[], 0), r#"{"ok":false,"error":"invalid_or_missing_request_id"}"#);
    assert_eq!(evidence_endpoint("/e?request_id=5", &reqs, &[], 0), r#"{"ok":false,"error":"request_id_not_found_or_evicted"}"#);
}
