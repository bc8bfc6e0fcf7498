use labtrace::correlate::Incident;
use labtrace::document::Json;
use labtrace::report::{json, json_document, sarif, sarif_document, sarif_level, sarif_message, sarif_rule_id, stats_line, terminal};
use labtrace::rules::Severity;

fn incident() -> Incident {
    Incident {
        title: "test".into(),
        severity: Severity::High,
        actors: vec![1],
        chain: "a(1)".into(),
        findings: vec!["LT001".into()],
        taints: vec![],
        seq_from: 1,
        seq_to: 2,
        summary: "s".into(),
    }
}

#[test]
fn terminal_without_incidents() {
    let out = terminal(&[], "0 events");
    assert!(out.starts_with("\n┌"));
    assert!(out.contains("\x1b[2m0 events\x1b[0m\n\n"));
    assert!(out.ends_with("  \x1b[32m✓ No incidents correlated.\x1b[0m\n"));
}

#[test]
fn terminal_renders_incident_block() {
    let mut second = incident();
    second.severity = Severity::Low;
    second.taints = vec!["credentials".into(), "crypto-key".into()];
    let out = terminal(&[incident(), second], "stats");
    let expected_first = "\x1b[91m[    HIGH] test\x1b[0m\n  \x1b[2mchain:\x1b[0m   a(1)\n  \x1b[2msignals:\x1b[0m LT001\n  \x1b[2mscope:\x1b[0m   seq 1–2\n  \x1b[2msummary:\x1b[0m s\n";
    assert!(out.contains(expected_first));
    assert!(out.contains("\x1b[32m[     LOW] test"));
    assert!(out.contains("  \x1b[2mtaint:\x1b[0m   credentials, crypto-key\n"));
    // blocks are separated by a blank line and the report ends with one
    assert!(out.contains("summary:\x1b[0m s\n\n\x1b[32m"));
    assert!(out.ends_with("summary:\x1b[0m s\n\n"));
}

#[test]
fn sarif_parts() {
    assert_eq!(sarif_level(Severity::Critical), "error");
    assert_eq!(sarif_level(Severity::High), "error");
    assert_eq!(sarif_level(Severity::Medium), "warning");
    assert_eq!(sarif_level(Severity::Low), "warning");
    assert_eq!(sarif_level(Severity::Info), "note");
    assert_eq!(sarif_rule_id(0), "LT-INC-001");
    assert_eq!(sarif_rule_id(41), "LT-INC-042");
    assert_eq!(sarif_rule_id(999), "LT-INC-1000");
    assert_eq!(sarif_message(&incident()), "s [a(1)]");
}

#[test]
fn stats_line_text() {
    assert_eq!(
        stats_line(14, 10, 2, 1),
        "14 events ingested · 10 rule signals · 2 taint flows · 1 incidents"
    );
}

#[test]
fn sarif_is_valid_structure() {
    let inc = Incident {
        title: "test".into(),
        severity: Severity::High,
        actors: vec![1],
        chain: "a(1)".into(),
        findings: vec!["LT001".into()],
        taints: vec![],
        seq_from: 1,
        seq_to: 2,
        summary: "s".into(),
    };
    let doc = sarif(&[inc]);
    assert!(doc.contains("\"version\": \"2.1.0\""));
    assert!(doc.contains("LabTrace"));
}

fn field<'a>(j: &'a Json, key: &str) -> &'a Json {
    match j {
        Json::Obj(fs) => &fs.iter().find(|f| f.0 == key).expect("field").1,
        _ => panic!("not an object"),
    }
}

fn item(j: &Json, i: usize) -> &Json {
    match j {
        Json::Arr(v) => &v[i],
        _ => panic!("not an array"),
    }
}

fn text(j: &Json) -> &str {
    match j {
        Json::Str(s) => s.as_str(),
        _ => panic!("not a string"),
    }
}

fn num(j: &Json) -> u64 {
    match j {
        Json::Num(n) => *n,
        _ => panic!("not a number"),
    }
}

fn nums(j: &Json) -> Vec<u64> {
    match j {
        Json::Arr(v) => v.iter().map(num).collect(),
        _ => panic!("not an array"),
    }
}

fn texts(j: &Json) -> Vec<&str> {
    match j {
        Json::Arr(v) => v.iter().map(text).collect(),
        _ => panic!("not an array"),
    }
}

#[test]
fn sarif_document_fields() {
    let mut second = incident();
    second.severity = Severity::Medium;
    second.taints = vec!["credentials".into()];
    let d = sarif_document(&[incident(), second]);
    assert_eq!(text(field(&d, "version")), "2.1.0");
    assert_eq!(text(field(&d, "$schema")), "https://json.schemastore.org/sarif-2.1.0.json");
    let run = item(field(&d, "runs"), 0);
    let driver = field(field(run, "tool"), "driver");
    assert_eq!(text(field(driver, "name")), "LabTrace");
    let rule = item(field(driver, "rules"), 1);
    assert_eq!(text(field(rule, "id")), "LT-INC-002");
    assert_eq!(text(field(field(rule, "defaultConfiguration"), "level")), "warning");
    let result = item(field(run, "results"), 0);
    assert_eq!(text(field(result, "ruleId")), "LT-INC-001");
    assert_eq!(text(field(result, "level")), "error");
    assert_eq!(text(field(field(result, "message"), "text")), "s [a(1)]");
    let props = field(result, "properties");
    assert_eq!(text(field(props, "severity")), "high");
    assert_eq!(nums(field(props, "actors")), vec![1]);
    let props2 = field(item(field(run, "results"), 1), "properties");
    assert_eq!(texts(field(props2, "taints")), vec!["credentials"]);
}

#[test]
fn sarif_text_is_pretty_json() {
    let out = sarif(&[]);
    assert_eq!(
        out,
        "{\n  \"$schema\": \"https://json.schemastore.org/sarif-2.1.0.json\",\n  \"runs\": [\n    {\n      \"results\": [],\n      \"tool\": {\n        \"driver\": {\n          \"name\": \"LabTrace\",\n          \"rules\": []\n        }\n      }\n    }\n  ],\n  \"version\": \"2.1.0\"\n}"
    );
}

#[test]
fn json_report_text() {
    let out = json(&[], "0 events");
    assert_eq!(
        out,
        "{\n  \"incidents\": [],\n  \"stats\": \"0 events\",\n  \"tool\": \"labtrace\",\n  \"version\": \"0.1.0\"\n}"
    );
    let one = json(&[incident()], "x");
    assert!(one.contains("\"severity\": \"High\""));
    assert!(one.contains("\"seq_to\": 2"));
    assert!(one.contains("\"findings\": [\n        \"LT001\"\n      ]"));
}

#[test]
fn json_document_fields() {
    let d = json_document(&[incident()], "st");
    assert_eq!(text(field(&d, "tool")), "labtrace");
    assert_eq!(text(field(&d, "stats")), "st");
    let inc = item(field(&d, "incidents"), 0);
    assert_eq!(text(field(inc, "title")), "test");
    assert_eq!(text(field(inc, "severity")), "High");
    assert_eq!(nums(field(inc, "actors")), vec![1]);
    assert_eq!(text(field(inc, "chain")), "a(1)");
    assert_eq!(texts(field(inc, "findings")), vec!["LT001"]);
    assert!(texts(field(inc, "taints")).is_empty());
    assert_eq!(num(field(inc, "seq_from")), 1);
    assert_eq!(num(field(inc, "seq_to")), 2);
    assert_eq!(text(field(inc, "summary")), "s");
}
