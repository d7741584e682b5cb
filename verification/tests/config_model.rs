use fds::config::Config;
use fds::config_model::{
    d1_socket_buffer_bytes, emit_config, field_value, generate_schema, next_power_of_two,
    validate_config, validate_value,
};
use fds::config_table::{sections, FieldDef, JsonType};
use serde_json::Value;

#[test]
fn d1_buffer_rule() {
    assert_eq!(d1_socket_buffer_bytes(3 << 20), 4 << 20);
    assert_eq!(d1_socket_buffer_bytes(8 << 20), 4 << 20);
    assert_eq!(d1_socket_buffer_bytes(16 << 20), 8 << 20);
    assert_eq!(d1_socket_buffer_bytes(24 << 20), 16 << 20);
    assert_eq!(d1_socket_buffer_bytes(64 << 20), 16 << 20);
}

#[test]
fn buffers_at_the_ends_of_the_range() {
    assert_eq!(d1_socket_buffer_bytes(0), 4 << 20);
    assert_eq!(d1_socket_buffer_bytes(u64::MAX), 16 << 20);
    assert_eq!(d1_socket_buffer_bytes((16 << 20) + 2), 16 << 20);
}

#[test]
fn emit_matches_engine_defaults_for_small_l3() {
    let v: Value = serde_json::from_str(&emit_config(Some(3 << 20))).unwrap();
    assert_eq!(v["udp"]["rcvbuf"], Value::from(4 << 20));
    assert_eq!(v["tcp"]["sndbuf"], Value::from(4 << 20));
    assert_eq!(v["reactor"]["strategy"], Value::from("epoll-busy-poll"));
    assert_eq!(v["core"]["threads"], Value::from(0));
    assert_eq!(v["engine"]["udp_bind"], Value::from("127.0.0.1:7777"));
    assert_eq!(v["metrics"]["socket_path"], Value::from("/tmp/fds-metrics.sock"));
}

#[test]
fn emit_scales_buffers_with_l3() {
    let v: Value = serde_json::from_str(&emit_config(Some(32 << 20))).unwrap();
    assert_eq!(v["udp"]["rcvbuf"], Value::from(16 << 20));
    assert_eq!(v["udp"]["sndbuf"], Value::from(16 << 20));
    assert_eq!(v["tcp"]["rcvbuf"], Value::from(16 << 20));
}

#[test]
fn emitted_text_is_pretty_json_with_a_final_line_feed() {
    let s = emit_config(None);
    assert!(s.starts_with("{\n  \"af_xdp\": {\n    \"device\": \"\",\n    \"queue\": 0\n  },\n"));
    assert!(s.ends_with("\n}\n"));
    assert!(s.contains("    \"pin_cores\": true,\n"));
}

#[test]
fn schema_covers_every_engine_field() {
    let schema: Value = serde_json::from_str(&generate_schema()).unwrap();
    for section in sections() {
        let sprops = &schema["properties"][section.name]["properties"];
        for f in &section.fields {
            let fd = &sprops[f.key];
            assert!(fd["type"].is_string(), "{}:{} missing type", section.name, f.key);
            assert!(fd["description"].is_string());
            assert!(fd["x-trade-off"].is_string());
            assert!(fd["x-derived-from"].is_string());
            assert!(
                fd["default"].is_boolean() || fd["default"].is_number() || fd["default"].is_string()
            );
        }
    }
}

#[test]
fn schema_states_types_and_names() {
    let schema: Value = serde_json::from_str(&generate_schema()).unwrap();
    assert_eq!(schema["title"], Value::from("FDS engine configuration"));
    assert_eq!(schema["additionalProperties"], Value::from(false));
    let strategy = &schema["properties"]["reactor"]["properties"]["strategy"];
    assert_eq!(strategy["type"], Value::from("string"));
    assert_eq!(strategy["enum"][0], Value::from("epoll-busy-poll"));
    assert_eq!(strategy["enum"][1], Value::from("io-uring"));
    let threads = &schema["properties"]["core"]["properties"]["threads"];
    assert_eq!(threads["type"], Value::from("integer"));
    assert_eq!(threads["default"], Value::from(0));
    assert_eq!(schema["properties"]["core"]["type"], Value::from("object"));
}

#[test]
fn validate_accepts_empty_and_full() {
    assert!(validate_config("{}").is_empty());
    assert!(validate_config(&emit_config(None)).is_empty());
    assert!(validate_config(&emit_config(Some(16 << 20))).is_empty());
}

#[test]
fn validate_rejects_unknown_and_mistyped() {
    let errors = validate_config(r#"{ "core": { "bogus": 1 }, "udp": { "rcvbuf": "big" } }"#);
    assert_eq!(errors.len(), 2, "{errors:?}");
    assert!(errors[0].contains("unknown key core.bogus"));
    assert!(errors[1].contains("udp.rcvbuf"));

    let errors = validate_config(r#"{ "nope": {} }"#);
    assert_eq!(errors.len(), 1);
    assert!(errors[0].contains("unknown section"));

    let errors = validate_config(r#"{ "reactor": { "strategy": "busy-loop" } }"#);
    assert_eq!(errors.len(), 1);
    assert!(errors[0].contains("reactor.strategy"));

    let errors = validate_config(r#"{ "core": 7 }"#);
    assert_eq!(errors.len(), 1);
    assert!(errors[0].contains("section \"core\" must be an object"));
}

#[test]
fn validate_rejects_malformed_json() {
    let errors = validate_config("{ nope");
    assert_eq!(errors.len(), 1);
}

#[test]
fn negative_timeout_ok_but_negative_buffers_rejected() {
    assert!(validate_config(r#"{ "reactor": { "timeout_ms": -1 } }"#).is_empty());
    let errors = validate_config(r#"{ "udp": { "rcvbuf": -1 } }"#);
    assert_eq!(errors.len(), 1);
    assert!(errors[0].contains("udp.rcvbuf"));
}

#[test]
fn problems_are_worded_exactly() {
    assert_eq!(validate_config("[]"), vec!["config.json: root must be an object"]);
    assert_eq!(
        validate_config(r#"{ "a\"b": 1 }"#),
        vec!["config.json: unknown section \"a\\\"b\""]
    );
    assert_eq!(
        validate_config(r#"{ "udp": { "gro": [1, 2] }, "core": { "pin_cores": null } }"#),
        vec![
            "config.json: core.pin_cores: expected a boolean, got null",
            "config.json: udp.gro: expected a boolean, got [1,2]",
        ]
    );
    assert_eq!(
        validate_config(r#"{ "metrics": { "socket_path": 1.5 } }"#),
        vec!["config.json: metrics.socket_path: expected a string, got 1.5"]
    );
    assert_eq!(
        validate_config(r#"{ "reactor": { "timeout_ms": 9223372036854775808 } }"#),
        vec!["config.json: reactor.timeout_ms: expected an integer, got 9223372036854775808"]
    );
    assert_eq!(
        validate_config(r#"{ "reactor": { "strategy": 3, "max_events": -2 } }"#),
        vec![
            "config.json: reactor.max_events: expected a non-negative integer, got -2",
            "config.json: reactor.strategy: expected \"epoll-busy-poll\" | \"io-uring\", got 3",
        ]
    );
    let refused = validate_config("{ nope");
    assert!(refused[0].starts_with("config.json: key must be a string at line 1"));
}

#[test]
fn values_are_validated_like_documents() {
    let v: Value = serde_json::from_str(r#"{ "core": { "threads": 4 }, "x": 1 }"#).unwrap();
    assert_eq!(validate_value(&v), vec!["config.json: unknown section \"x\""]);
    assert_eq!(validate_value(&Value::Bool(true)).len(), 1);
}

#[test]
fn defaults_are_read_as_values() {
    let f = |json_type: JsonType, default_json: &'static str| FieldDef {
        key: "k",
        json_type,
        default_json,
        derived_from: "",
        description: "",
        trade_off: "",
    };
    assert_eq!(field_value(&f(JsonType::Bool, "false")), Value::Bool(false));
    assert_eq!(field_value(&f(JsonType::Int, "1048576")), Value::from(1048576));
    assert_eq!(field_value(&f(JsonType::Str, "true")), Value::from("true"));
    assert_eq!(field_value(&f(JsonType::Int, "not json")), Value::from("not json"));
}

#[test]
fn emitted_defaults_are_the_engines() {
    let v: Value = serde_json::from_str(&emit_config(None)).unwrap();
    let c = Config::default();
    assert_eq!(v["core"]["pin_cores"], Value::Bool(c.core.pin_cores));
    assert_eq!(v["core"]["stack_bytes"], Value::from(c.core.stack_bytes));
    assert_eq!(v["reactor"]["max_events"], Value::from(c.reactor.max_events));
    assert_eq!(v["reactor"]["timeout_ms"], Value::from(c.reactor.timeout_ms));
    assert_eq!(v["udp"]["incoming_cpu"], Value::Bool(c.udp.incoming_cpu));
    assert_eq!(v["sctp"]["init_max_streams"], Value::from(c.sctp.init_max_streams));
    assert_eq!(v["zero_copy"]["splice"], Value::Bool(c.zero_copy.splice));
    assert_eq!(v["af_xdp"]["queue"], Value::from(c.af_xdp.queue));
    assert_eq!(v["engine"]["tcp_bind"], Value::from(c.engine.tcp_bind));
}

#[test]
fn the_table_busy_polls() {
    let v: Value = serde_json::from_str(&emit_config(None)).unwrap();
    assert_eq!(v["reactor"]["busy_poll"], Value::Bool(true));
    assert!(!Config::default().reactor.busy_poll);
    assert_eq!(validate_config(r#"{"udp": {"ipv6_only": true}}"#).len(), 1);
}

#[test]
fn powers_of_two_from_below() {
    for (n, p) in [(0, 1), (1, 1), (2, 2), (3, 4), (12, 16), (256, 256), (257, 512)] {
        assert_eq!(next_power_of_two(n), p);
    }
}
