use serde_json::Value;
use xerj_autoindex::cluster::info_body;

fn body(mode: &str, started_at_ms: i64) -> Value {
    serde_json::from_str(&info_body(mode, started_at_ms)).expect("the probe body is JSON")
}

#[test]
fn info_body_omits_node_id_and_version_pre_auth() {
    let v = body("standalone", 1_700_000_000_000);
    assert_eq!(v.get("mode").and_then(|m| m.as_str()), Some("standalone"));
    assert!(v.get("started_at_ms").is_some());
    // The disclosure fields must be gone from the pre-auth body.
    assert!(v.get("node_id").is_none(), "node_id must not leak pre-auth");
    assert!(v.get("version").is_none(), "version must not leak pre-auth");
    // And the body holds nothing but the mode and the start time.
    assert_eq!(v.as_object().map(|o| o.len()), Some(2));
}

#[test]
fn the_probe_body_is_exact_json_for_any_mode() {
    assert_eq!(info_body("raft", 42), "{\"mode\":\"raft\",\"started_at_ms\":42}");
    assert_eq!(info_body("a\"b\\c\n\u{1}", -7), "{\"mode\":\"a\\\"b\\\\c\\n\\u0001\",\"started_at_ms\":-7}");
    let v = body("a\"b\\c\n\u{1}é", i64::MIN);
    assert_eq!(v["mode"].as_str(), Some("a\"b\\c\n\u{1}é"));
    assert_eq!(v["started_at_ms"].as_i64(), Some(i64::MIN));
}
