use hachimi_ura_plugin::capture::{CapturedRequest, CapturedResponse};
use hachimi_ura_plugin::findings::printable_findings;
use hachimi_ura_plugin::signup::{
    analyze_payload, array_json, binary_json, byte_pattern_json, decode_messagepack,
    depth_limit_json, endpoint, extension_json, hex_encode, is_signup_url, map_json,
    plan_signup_records, signup_request_ids, string_array_json, string_value_json,
    value_filling, value_json, DecodedValue,
};
use rmpv::Value;

fn decoded(value: &Value) -> DecodedValue {
    match value {
        Value::Nil => DecodedValue::Nil,
        Value::Boolean(v) => DecodedValue::Boolean(*v),
        Value::Integer(v) => match v.as_u64() {
            Some(u) => DecodedValue::Unsigned(u),
            None => DecodedValue::Signed(v.as_i64().unwrap_or(0)),
        },
        Value::F32(v) => DecodedValue::Float(if v.is_finite() { v.to_string() } else { "null".to_string() }),
        Value::F64(v) => DecodedValue::Float(if v.is_finite() { v.to_string() } else { "null".to_string() }),
        Value::String(v) => DecodedValue::Text(v.as_str().map(|s| s.to_string())),
        Value::Binary(bytes) => DecodedValue::Binary(bytes.clone()),
        Value::Array(values) => DecodedValue::Array(values.iter().map(decoded).collect()),
        Value::Map(pairs) => DecodedValue::Fields(
            pairs.iter().map(|(k, v)| (k.as_str().unwrap_or("").to_string(), decoded(v))).collect(),
        ),
        Value::Ext(kind, bytes) => DecodedValue::Extension(*kind, bytes.clone()),
    }
}

#[test]
fn signup_urls_are_recognised_by_lowercased_path() {
    assert!(is_signup_url("https://h/umamusume/tool/pre_signup"));
    assert!(is_signup_url("https://h/Tool/PRE-SIGNUP?x"));
    assert!(is_signup_url("https://h/api/Signup"));
    assert!(!is_signup_url("https://h/api/login?next=/signup"));
    assert!(!is_signup_url("https://signup.example/login"));
}

#[test]
fn hex_and_string_lists() {
    assert_eq!(hex_encode(&[0, 255, 16, 0xab]), "00ff10ab");
    assert_eq!(hex_encode(&[]), "");
    assert_eq!(string_array_json(&["a".to_string(), "b\"".to_string()]), "\"a\",\"b\\\"\"");
    assert_eq!(string_array_json(&[]), "");
}

#[test]
fn byte_patterns() {
    assert_eq!(byte_pattern_json(&[7, 7, 7, 7, 1]), r#"{"kind":"repeated_byte","byte":7,"ratio_percent":80}"#);
    assert_eq!(byte_pattern_json(&[9; 3]), r#"{"kind":"repeated_byte","byte":9,"ratio_percent":100}"#);
    assert_eq!(byte_pattern_json(&[7, 7, 7, 1, 1]), "null");
    assert_eq!(byte_pattern_json(&[]), "null");
}

#[test]
fn messagepack_is_found_at_the_first_fitting_offset() {
    let whole = decode_messagepack(&[0x93, 1, 2, 3], false).unwrap();
    assert_eq!(whole.0, 0);
    assert_eq!(whole.1, rmpv::Value::Array(vec![1.into(), 2.into(), 3.into()]));
    let prefixed = [0x01, 0x02, 0x93, 1, 2, 3];
    assert_eq!(decode_messagepack(&prefixed, true).map(|(o, _)| o), Some(2));
    assert!(decode_messagepack(&prefixed, false).is_none());
    assert_eq!(decode_messagepack(&[0xc0, 0xc0], true).map(|(o, _)| o), Some(1));
    assert!(decode_messagepack(&[], true).is_none());
    assert!(decode_messagepack(&[0x92, 1], false).is_none());
    assert_eq!(decode_messagepack(&[0x92, 1], true).map(|(o, _)| o), Some(1));
    assert_eq!(decode_messagepack(&prefixed, true).map(|(_, v)| v), Some(Value::Array(vec![1.into(), 2.into(), 3.into()])));
    assert_eq!(decode_messagepack(&[0xc0, 0x2a], true).map(|(_, v)| v), Some(Value::from(42)));
    assert!(decode_messagepack(&[0xd9, 0xd9], true).is_none());
}

#[test]
fn a_read_counts_only_when_it_fills_the_rest() {
    assert_eq!(value_filling(Some((3, Value::from(7))), 3), Some(Value::from(7)));
    assert_eq!(value_filling(Some((2, Value::from(7))), 3), None);
    assert_eq!(value_filling(None, 0), None);
}

#[test]
fn binary_fields() {
    assert_eq!(binary_json(&[0xd9, 0xd9], 0, &decoded), r#"{"type":"binary","length":2,"hex":"d9d9"}"#);
    assert_eq!(
        binary_json("é".as_bytes(), 0, &decoded),
        r#"{"type":"binary","length":2,"nested_candidate":{"codec":"utf8","confidence":"heuristic_candidate","value":"é","truncated":false}}"#
    );
    assert_eq!(
        binary_json(b"hi", 0, &decoded),
        r#"{"type":"binary","length":2,"nested_candidate":{"codec":"messagepack","confidence":"heuristic_candidate","prefix_bytes":1,"value":105}}"#
    );
    assert_eq!(binary_json(b"hi", 12, &decoded), r#"{"type":"binary","length":2,"hex":"6869"}"#);
    assert_eq!(
        binary_json(&[0x01], 11, &decoded),
        r#"{"type":"binary","length":1,"nested_candidate":{"codec":"messagepack","confidence":"heuristic_candidate","prefix_bytes":0,"value":{"truncated":true,"reason":"max_depth"}}}"#
    );
    assert_eq!(binary_json(&[0xff; 5000], 0, &decoded), r#"{"type":"binary","length":5000,"inline":false}"#);
}

#[test]
fn value_pieces() {
    assert_eq!(string_value_json("a\"b"), "\"a\\\"b\"");
    let long = "x".repeat(16385);
    let out = string_value_json(&long);
    assert!(out.starts_with(r#"{"type":"string","value":"xxx"#));
    assert!(out.ends_with(r#"","truncated":true}"#));
    assert_eq!(out.len(), r#"{"type":"string","value":"","truncated":true}"#.len() + 16384);
    assert_eq!(array_json(3, &vec!["1".to_string(), "2".to_string()]), r#"{"type":"array","length":3,"items":[1,2],"truncated":true}"#);
    assert_eq!(array_json(2, &vec!["1".to_string(), "2".to_string()]), "[1,2]");
    assert_eq!(map_json(1, &vec![("k\"".to_string(), "1".to_string())]), r#"{"k\"":1}"#);
    assert_eq!(
        map_json(4, &vec![("a".to_string(), "null".to_string())]),
        r#"{"type":"map","length":4,"fields":{"a":null},"truncated":true}"#
    );
    assert_eq!(extension_json(-5, "null"), r#"{"type":"extension","kind":-5,"payload":null}"#);
    assert_eq!(extension_json(-128, "0"), r#"{"type":"extension","kind":-128,"payload":0}"#);
    assert_eq!(extension_json(127, "0"), r#"{"type":"extension","kind":127,"payload":0}"#);
    assert_eq!(depth_limit_json(), r#"{"truncated":true,"reason":"max_depth"}"#);
}

#[test]
fn payload_analysis_layers() {
    assert_eq!(
        analyze_payload(&[], "request_plain", "verified_plaintext_boundary", &decoded),
        r#"{"source_stage":"request_plain","confidence":"verified_plaintext_boundary","codec":"empty","decoded":true,"value":null}"#
    );
    assert_eq!(
        analyze_payload(&[0x93, 1, 2, 3], "s", "c", &decoded),
        r#"{"source_stage":"s","confidence":"c","codec":"messagepack","decoded":true,"prefix_bytes":0,"value":[1,2,3]}"#
    );
    assert_eq!(
        analyze_payload(b"a", "s", "c", &decoded),
        r#"{"source_stage":"s","confidence":"c","codec":"messagepack","decoded":true,"prefix_bytes":0,"value":97}"#
    );
    assert_eq!(
        analyze_payload("é\"".as_bytes(), "s", "c", &decoded),
        r#"{"source_stage":"s","confidence":"c","codec":"messagepack","decoded":true,"prefix_bytes":2,"value":34}"#
    );
    assert_eq!(
        analyze_payload("é".as_bytes(), "s", "c", &decoded),
        r#"{"source_stage":"s","confidence":"c","codec":"utf8","decoded":true,"value":"é","truncated":false}"#
    );
    assert_eq!(
        analyze_payload(&[0xd9, 0xd9, 0xd9, 0xd9, 0xda], "s", "c", &decoded),
        r#"{"source_stage":"s","confidence":"heuristic_candidate","codec":"unknown","decoded":false,"size":5,"raw_inline":false,"hex_preview":"d9d9d9d9da","hex_preview_truncated":false,"byte_pattern":{"kind":"repeated_byte","byte":217,"ratio_percent":80},"findings":{"strings":[],"route_candidates":[],"class_name_candidates":[]},"hint":"source stage is metadata, not a parsing prohibition; use raw capture for complete bytes"}"#
    );
    let mut big = vec![0xd9u8; 40];
    big[0] = 0x80;
    let out = analyze_payload(&big, "s", "c", &decoded);
    assert!(out.contains(r#""size":40,"raw_inline":false,"hex_preview":"80d9d9d9d9d9d9d9d9d9d9d9d9d9d9d9d9d9d9d9d9d9d9d9d9d9d9d9d9d9d9d9","hex_preview_truncated":true,"byte_pattern":null,"#));
}

#[test]
fn printable_findings_collects_sorted_sets() {
    let mut bytes = vec![0x00, 0x01];
    bytes.extend_from_slice(b"Hello World /api/load Gallop.SingleModeAPI");
    bytes.push(0xff);
    bytes.extend_from_slice(b" ab ");
    bytes.push(0xff);
    bytes.extend_from_slice(b"  padded text  ");
    bytes.push(0x00);
    bytes.extend_from_slice(b"xyz");
    let (strings, routes, classes) = printable_findings(&bytes);
    assert_eq!(strings, vec!["Hello World /api/load Gallop.SingleModeAPI", "ab", "padded text"]);
    assert_eq!(routes, vec!["/api/load"]);
    assert_eq!(classes, vec!["Gallop.SingleModeAPI", "Hello", "World"]);
}

#[test]
fn printable_findings_stops_at_the_limit_and_splits_long_runs() {
    let mut bytes = Vec::new();
    for i in 0..100 {
        bytes.extend_from_slice(format!("item{:03}", i).as_bytes());
        bytes.push(0);
    }
    let (strings, _, _) = printable_findings(&bytes);
    assert_eq!(strings.len(), 64);
    assert_eq!(strings[63], "item063");
    let long = vec![b'A'; 600];
    let (strings, _, classes) = printable_findings(&long);
    assert_eq!(strings.len(), 2);
    assert_eq!(strings[0].len(), 88);
    assert_eq!(strings[1].len(), 512);
    assert_eq!(classes, vec!["A".repeat(88)]);
    let (s, r, c) = printable_findings(b"(/x) [\"Foo.Bar\"],/ab;x+Zeta_9 Foo.Barn");
    assert_eq!(s, vec!["(/x) [\"Foo.Bar\"],/ab;x+Zeta_9 Foo.Barn"]);
    assert_eq!(r, vec!["/ab"]);
    assert_eq!(c, vec!["Foo.Barn", "x+Zeta_9"]);
}

#[test]
fn signup_records() {
    let reqs = vec![
        CapturedRequest { request_id: 5, url: "https://h/api/pre_signup".to_string(), method: "POST".to_string(), body: "é".as_bytes().to_vec() },
        CapturedRequest { request_id: 2, url: "https://h/tool/signup".to_string(), method: "POST".to_string(), body: vec![0x93, 1, 2, 3] },
        CapturedRequest { request_id: 3, url: "https://h/load".to_string(), method: "GET".to_string(), body: vec![] },
    ];
    let resps = vec![CapturedResponse { request_id: 5, body: vec![] }];
    assert_eq!(signup_request_ids(&reqs), vec![2, 5]);
    let plan = plan_signup_records(&reqs, &resps);
    assert_eq!(plan.len(), 2);
    assert_eq!((plan[0].request_id, plan[0].request_index, plan[0].response_index), (2, 1, None));
    assert_eq!((plan[1].request_id, plan[1].request_index, plan[1].response_index), (5, 0, Some(0)));
    assert_eq!(
        endpoint(&reqs, &resps, &decoded),
        r#"{"ok":true,"schema_version":2,"mode":"provenance_aware_layered_analysis","filter":["pre_signup","signup"],"source_hooks":["HttpHelper.CompressRequest:input","HttpHelper.DecompressResponse:output","WWWRequest.Post:correlation"],"policy":{"stage_is_metadata_not_prohibition":true,"wire_analysis_allowed":true,"nested_payload_analysis":true,"unknown_payloads_are_not_presented_as_plaintext":true,"raw_payload_omitted_from_compact_view":true},"raw_payload_endpoint":"/api/sniff/metadata","count":2,"records":[{"request_id":2,"url":"https://h/tool/signup","method":"POST","request_size":4,"request":{"source_stage":"request_plain","confidence":"verified_plaintext_boundary","codec":"messagepack","decoded":true,"prefix_bytes":0,"value":[1,2,3]},"response_size":0,"response":null},{"request_id":5,"url":"https://h/api/pre_signup","method":"POST","request_size":2,"request":{"source_stage":"request_plain","confidence":"verified_plaintext_boundary","codec":"utf8","decoded":true,"value":"é","truncated":false},"response_size":0,"response":{"source_stage":"response_plain","confidence":"verified_plaintext_boundary","codec":"empty","decoded":true,"value":null}}]}"#
    );
}

#[test]
fn signup_records_keep_the_highest_ids() {
    let mut reqs = Vec::new();
    for id in (1..=40u64).rev() {
        reqs.push(CapturedRequest { request_id: id, url: "https://h/signup".to_string(), method: "POST".to_string(), body: vec![] });
        reqs.push(CapturedRequest { request_id: id, url: "https://h/signup".to_string(), method: "POST".to_string(), body: vec![] });
    }
    let ids = signup_request_ids(&reqs);
    assert_eq!(ids, (9..=40u64).collect::<Vec<_>>());
}

#[test]
fn decoded_values_render_with_depth_and_item_bounds() {
    assert_eq!(value_json(&DecodedValue::Nil, 0, &decoded), "null");
    assert_eq!(value_json(&DecodedValue::Boolean(true), 0, &decoded), "true");
    assert_eq!(value_json(&DecodedValue::Unsigned(u64::MAX), 0, &decoded), "18446744073709551615");
    assert_eq!(value_json(&DecodedValue::Signed(i64::MIN), 0, &decoded), "-9223372036854775808");
    assert_eq!(value_json(&DecodedValue::Signed(-7), 0, &decoded), "-7");
    assert_eq!(value_json(&DecodedValue::Float("1.5".to_string()), 0, &decoded), "1.5");
    assert_eq!(value_json(&DecodedValue::Text(Some("a\"".to_string())), 0, &decoded), "\"a\\\"\"");
    assert_eq!(value_json(&DecodedValue::Text(None), 0, &decoded), "\"\"");
    assert_eq!(value_json(&DecodedValue::Nil, 12, &decoded), r#"{"truncated":true,"reason":"max_depth"}"#);
    assert_eq!(
        value_json(&DecodedValue::Array(vec![DecodedValue::Unsigned(1), DecodedValue::Array(vec![DecodedValue::Nil])]), 10, &decoded),
        r#"[1,[{"truncated":true,"reason":"max_depth"}]]"#
    );
    let many = DecodedValue::Array((0..257u64).map(DecodedValue::Unsigned).collect());
    let out = value_json(&many, 0, &decoded);
    assert!(out.starts_with(r#"{"type":"array","length":257,"items":[0,1,2,"#));
    assert!(out.ends_with(r#",254,255],"truncated":true}"#));
    let fields = DecodedValue::Fields((0..257u64).map(|i| (format!("k{}", i), DecodedValue::Unsigned(i))).collect());
    let out = value_json(&fields, 0, &decoded);
    assert!(out.starts_with(r#"{"type":"map","length":257,"fields":{"k0":0,"#));
    assert!(out.ends_with(r#""k255":255},"truncated":true}"#));
    assert_eq!(
        value_json(&DecodedValue::Fields(vec![("x".to_string(), DecodedValue::Boolean(false))]), 0, &decoded),
        r#"{"x":false}"#
    );
    assert_eq!(
        value_json(&DecodedValue::Binary(vec![0x92, 1, 0xc0]), 0, &decoded),
        r#"{"type":"binary","length":3,"nested_candidate":{"codec":"messagepack","confidence":"heuristic_candidate","prefix_bytes":0,"value":[1,null]}}"#
    );
    assert_eq!(
        value_json(&DecodedValue::Extension(-3, vec![0xd9, 0xd9]), 0, &decoded),
        r#"{"type":"extension","kind":-3,"payload":{"type":"binary","length":2,"hex":"d9d9"}}"#
    );
    assert_eq!(
        value_json(&DecodedValue::Binary(vec![0x01]), 10, &decoded),
        r#"{"type":"binary","length":1,"nested_candidate":{"codec":"messagepack","confidence":"heuristic_candidate","prefix_bytes":0,"value":{"truncated":true,"reason":"max_depth"}}}"#
    );
    assert_eq!(value_json(&DecodedValue::Binary(vec![0x01]), 11, &decoded), r#"{"type":"binary","length":1,"hex":"01"}"#);
}

#[test]
fn decoded_messagepack_with_floats_renders_through_the_conversion() {
    // [1.5, {"k": -2}]
    let bytes = [0x92, 0xcb, 0x3f, 0xf8, 0, 0, 0, 0, 0, 0, 0x81, 0xa1, b'k', 0xfe];
    assert_eq!(
        analyze_payload(&bytes, "s", "c", &decoded),
        r#"{"source_stage":"s","confidence":"c","codec":"messagepack","decoded":true,"prefix_bytes":0,"value":[1.5,{"k":-2}]}"#
    );
}
