use karma::engine::{EngineState, RedactRoute};
use karma::redaction::Redaction;
use karma::sidecar::{classify_reply_line, is_ready_signal, reply_error, reports_ok, request_line, ReplyLine};
use serde_json::Value;

fn request_by_serde(id: u64, cmd: &str, params: &[(&str, &str)]) -> String {
    let mut p = serde_json::Map::new();
    for (k, v) in params {
        p.insert(k.to_string(), Value::String(v.to_string()));
    }
    let mut m = serde_json::Map::new();
    m.insert("id".to_string(), Value::from(id));
    m.insert("cmd".to_string(), Value::String(cmd.to_string()));
    m.insert("params".to_string(), Value::Object(p));
    serde_json::to_string(&Value::Object(m)).unwrap() + "\n"
}

#[test]
fn request_lines_match_serde() {
    let params = vec![("model_path".to_string(), "/models/opf".to_string())];
    assert_eq!(
        request_line(1, "load", &params),
        "{\"cmd\":\"load\",\"id\":1,\"params\":{\"model_path\":\"/models/opf\"}}\n"
    );
    assert_eq!(request_line(1, "load", &params), request_by_serde(1, "load", &[("model_path", "/models/opf")]));
    assert_eq!(request_line(0, "health", &Vec::new()), request_by_serde(0, "health", &[]));
    let text = vec![("text".to_string(), "My name is \"John\"\n".to_string())];
    assert_eq!(
        request_line(u64::MAX, "redact", &text),
        request_by_serde(u64::MAX, "redact", &[("text", "My name is \"John\"\n")])
    );
    assert_eq!(request_line(1234567890, "info", &Vec::new()), request_by_serde(1234567890, "info", &[]));
}

#[test]
fn reply_lines_are_classified() {
    assert!(matches!(classify_reply_line(0, ""), ReplyLine::Closed));
    assert!(matches!(classify_reply_line(1, "\n"), ReplyLine::Skip));
    assert!(matches!(classify_reply_line(6, "  \t \n"), ReplyLine::Skip));
    assert!(matches!(classify_reply_line(12, "loading...\n"), ReplyLine::Skip));
    match classify_reply_line(20, "  {\"status\": \"ok\"}\n") {
        ReplyLine::Reply(v) => assert_eq!(v["status"], "ok"),
        _ => panic!("expected a reply"),
    }
    match classify_reply_line(4, "[1]\n") {
        ReplyLine::Reply(v) => assert_eq!(v[0], 1),
        _ => panic!("expected a reply"),
    }
}

#[test]
fn engine_routes_requests() {
    let mut e: EngineState<u8> = EngineState::new();
    assert!(!e.is_model_loaded());
    assert!(e.get_info().is_none());
    assert_eq!(e.route("  \n"), RedactRoute::Unchanged);
    assert_eq!(e.route(""), RedactRoute::Unchanged);
    assert_eq!(e.route("John"), RedactRoute::NotLoaded);
    let info = karma::config::ModelInfo {
        name: "opf".to_string(),
        architecture: "OpenAIPrivacyFilterForTokenClassification".to_string(),
        num_labels: 33,
        hidden_size: 640,
        vocab_size: 200064,
        max_position_embeddings: 131072,
    };
    e.load(7, info);
    assert!(e.is_model_loaded());
    assert_eq!(e.get_info().unwrap().name, "opf");
    assert_eq!(e.route("John"), RedactRoute::Run);
    assert_eq!(e.route(" \t"), RedactRoute::Unchanged);
}

#[test]
fn blank_text_is_answered_unchanged() {
    let text = "   ".to_string();
    let r = Redaction::unchanged(&text);
    assert_eq!(r.text, "   ");
    assert_eq!(r.redacted_text, "   ");
    assert!(r.detected_spans.is_empty());
    assert!(r.summary.is_empty());
}

fn reply(line: &str) -> Value {
    match classify_reply_line(line.len(), line) {
        ReplyLine::Reply(v) => v,
        _ => panic!("expected a reply"),
    }
}

#[test]
fn replies_are_read_by_their_members() {
    assert_eq!(reply_error(&reply("{\"error\": \"no model\"}")), Some("no model".to_string()));
    assert_eq!(reply_error(&reply("{\"error\": 3}")), None);
    assert_eq!(reply_error(&reply("{\"status\": \"ok\"}")), None);
    assert!(is_ready_signal(&reply("{\"ready\": true}")));
    assert!(!is_ready_signal(&reply("{\"ready\": false}")));
    assert!(!is_ready_signal(&reply("{\"ready\": \"true\"}")));
    assert!(!is_ready_signal(&reply("[true]")));
    assert!(reports_ok(&reply("{\"status\": \"ok\", \"model\": 1}")));
    assert!(!reports_ok(&reply("{\"status\": \"loading\"}")));
    assert!(!reports_ok(&reply("{}")));
}

#[test]
fn request_text_is_escaped() {
    let params = vec![("text".to_string(), "a\"b\\c\n\u{1}é".to_string())];
    let line = request_line(3, "redact", &params);
    assert!(line.ends_with('\n'));
    let back: Value = serde_json::from_str(line.trim_end()).unwrap();
    assert_eq!(back["params"]["text"], "a\"b\\c\n\u{1}é");
    assert_eq!(back["id"], 3);
    assert_eq!(back["cmd"], "redact");
}

#[test]
fn replies_carry_the_parsed_line() {
    let line = "  {\"ready\": true, \"n\": [1, 2]}  \n";
    match classify_reply_line(line.len(), line) {
        ReplyLine::Reply(v) => {
            let expected: Value = serde_json::from_str(line.trim()).unwrap();
            assert_eq!(v, expected);
            assert!(is_ready_signal(&v));
        }
        _ => panic!("expected a reply"),
    }
    match classify_reply_line(9, "\"ready\"\n") {
        ReplyLine::Reply(v) => assert_eq!(v, Value::String("ready".to_string())),
        _ => panic!("expected a reply"),
    }
}
