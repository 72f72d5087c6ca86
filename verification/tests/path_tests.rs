use node_log::bash::BashTool;
use node_log::logger::NodeLogger;
use node_log::paths::{node_log_path, rotated_log_path, u64_to_dec};
use node_log::record::Payload;

#[test]
fn decimal_formatting() {
    assert_eq!(u64_to_dec(0), "0");
    assert_eq!(u64_to_dec(7), "7");
    assert_eq!(u64_to_dec(10), "10");
    assert_eq!(u64_to_dec(90210), "90210");
    assert_eq!(u64_to_dec(u64::MAX), "18446744073709551615");
}

#[test]
fn rotated_paths_append_dot_index() {
    assert_eq!(rotated_log_path("/tmp/node.log", 1), "/tmp/node.log.1");
    assert_eq!(rotated_log_path("/tmp/node.log", 12), "/tmp/node.log.12");
}

#[test]
fn node_log_path_under_home() {
    assert_eq!(node_log_path("/home/u"), "/home/u/.gsv/logs/node.log");
}

#[test]
fn bash_tool_resolves_paths() {
    let t = BashTool::new("/ws".to_string());
    assert_eq!(t.resolve_path("/abs/p"), "/abs/p");
    assert_eq!(t.resolve_path("rel/p"), "/ws/rel/p");
    assert_eq!(t.effective_workdir(None), "/ws");
    assert_eq!(t.effective_workdir(Some("sub")), "/ws/sub");
    assert_eq!(t.effective_workdir(Some("/other")), "/other");
}

#[test]
fn bash_tool_definition() {
    let t = BashTool::new("/ws".to_string());
    let d = t.definition();
    assert_eq!(d.name, "Bash");
    assert_eq!(
        d.description,
        "Execute a shell command. Working directory defaults to the workspace."
    );
    let schema: serde_json::Value = serde_json::from_str(&d.input_schema).unwrap();
    assert_eq!(schema["required"][0], "command");
    assert_eq!(schema["properties"]["command"]["type"], "string");
}

#[test]
fn logger_emits_record_with_identity() {
    let logger = NodeLogger::with_ids("n1".to_string(), "/w".to_string());
    let line = logger.info("boot", Payload::Absent);
    let v: serde_json::Value = serde_json::from_str(&line).unwrap();
    assert_eq!(v["level"], "INFO");
    assert_eq!(v["component"], "node");
    assert_eq!(v["event"], "boot");
    assert_eq!(v["nodeId"], "n1");
    assert_eq!(v["workspace"], "/w");
    // millisecond-precision UTC timestamp with Z suffix
    let ts = v["ts"].as_str().unwrap();
    assert!(ts.ends_with('Z') && ts.contains('.') && ts.contains('T'));
    let err = logger.error("fail", Payload::Absent);
    let ev: serde_json::Value = serde_json::from_str(&err).unwrap();
    assert_eq!(ev["level"], "ERROR");
    let warn = logger.warn("slow", Payload::Absent);
    let wv: serde_json::Value = serde_json::from_str(&warn).unwrap();
    assert_eq!(wv["level"], "WARN");
}
