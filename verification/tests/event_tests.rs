use labtrace::event::{jsonl_records, parse_jsonl, Event};
use std::collections::BTreeMap;

/// The order key of an epoch, as the command-line front end computes it.
fn epoch_key(x: f64) -> i64 {
    if x == 0.0 || x.is_nan() {
        return 0;
    }
    let b = x.to_bits() as i64;
    if b < 0 {
        b ^ i64::MAX
    } else {
        b
    }
}

fn text(v: &serde_json::Value, key: &str) -> Result<String, String> {
    match v.get(key) {
        None => Ok(String::new()),
        Some(serde_json::Value::String(s)) => Ok(s.clone()),
        Some(other) => Err(format!("invalid type for {key}: {other}")),
    }
}

/// Decodes one record the way the front end's serde model does (every
/// field defaults when absent).
fn decode(line: &str) -> Result<Event, String> {
    let v: serde_json::Value = serde_json::from_str(line).map_err(|e| e.to_string())?;
    if !v.is_object() {
        return Err("expected an object".to_string());
    }
    let num = |key: &str| -> Result<u64, String> {
        match v.get(key) {
            None => Ok(0),
            Some(x) => x.as_u64().ok_or_else(|| format!("invalid {key}")),
        }
    };
    let epoch = match v.get("epoch") {
        None | Some(serde_json::Value::Null) => None,
        Some(x) => Some(epoch_key(x.as_f64().ok_or_else(|| "invalid epoch".to_string())?)),
    };
    Ok(Event {
        seq: num("seq")?,
        ts: text(&v, "ts")?,
        epoch,
        pid: num("pid")? as u32,
        ppid: num("ppid")? as u32,
        uid: match v.get("uid") {
            None => 0,
            Some(x) => x.as_i64().ok_or_else(|| "invalid uid".to_string())?,
        },
        kind: text(&v, "kind")?,
        exe: text(&v, "exe")?,
        cmdline: text(&v, "cmdline")?,
        target: text(&v, "target")?,
        success: match v.get("success") {
            None => false,
            Some(x) => x.as_bool().ok_or_else(|| "invalid success".to_string())?,
        },
        extra: BTreeMap::new(),
    })
}

fn parse(input: &str) -> (Vec<Event>, Vec<String>) {
    let decoded: Vec<(usize, Result<Event, String>)> = jsonl_records(input)
        .into_iter()
        .map(|(n, line)| (n, decode(&line)))
        .collect();
    parse_jsonl(decoded)
}

fn ev(seq: u64, epoch: Option<i64>, kind: &str, target: &str) -> Event {
    Event {
        seq,
        ts: String::new(),
        epoch,
        pid: 1,
        ppid: 0,
        uid: 0,
        kind: kind.into(),
        exe: "/bin/x".into(),
        cmdline: String::new(),
        target: target.into(),
        success: true,
        extra: BTreeMap::new(),
    }
}

#[test]
fn parses_minimal_event() {
    let line = r#"{"pid":100,"ppid":1,"kind":"exec","exe":"/bin/sh","cmdline":"sh -c id","success":true}"#;
    let (evs, errs) = parse(line);
    assert!(errs.is_empty());
    assert_eq!(evs.len(), 1);
    assert_eq!(evs[0].kind, "exec");
    assert_eq!(evs[0].seq, 1);
}

#[test]
fn orders_by_epoch() {
    let input = r#"
{"seq":1,"epoch":10.0,"pid":1,"kind":"exec","exe":"/a","success":true}
{"seq":2,"epoch":5.0,"pid":2,"kind":"exec","exe":"/b","success":true}
"#;
    let (evs, _) = parse(input);
    assert_eq!(evs[0].exe, "/b");
}

#[test]
fn bad_lines_do_not_abort() {
    let input = "{\"pid\":1}\nnot json\n{\"pid\":2,\"kind\":\"file\"}\n";
    let (evs, errs) = parse(input);
    assert_eq!(evs.len(), 2);
    assert_eq!(errs.len(), 1);
}

#[test]
fn records_skip_blank_and_comment_lines() {
    let input = "  \n# a comment\n\t{\"pid\":1}  \r\n\n   # indented comment\n{\"pid\":2}";
    let recs = jsonl_records(input);
    assert_eq!(recs, vec![(3, "{\"pid\":1}".to_string()), (6, "{\"pid\":2}".to_string())]);
}

#[test]
fn records_of_empty_input() {
    assert!(jsonl_records("").is_empty());
    assert!(jsonl_records("\n\n   \n").is_empty());
}

#[test]
fn error_lines_name_their_line() {
    let decoded = vec![
        (2usize, Err("oops".to_string())),
        (7usize, Ok(ev(0, None, "file", "/x"))),
        (11usize, Err("bad thing".to_string())),
    ];
    let (evs, errs) = parse_jsonl(decoded);
    assert_eq!(errs, vec!["line 2: oops".to_string(), "line 11: bad thing".to_string()]);
    assert_eq!(evs.len(), 1);
    // an event without a sequence number gets its line number
    assert_eq!(evs[0].seq, 7);
}

#[test]
fn timeline_orders_by_epoch_then_seq_and_is_stable() {
    let decoded = vec![
        (1usize, Ok(ev(5, Some(20), "file", "a"))),
        (2usize, Ok(ev(3, None, "file", "b"))),
        (3usize, Ok(ev(4, Some(-3), "file", "c"))),
        (4usize, Ok(ev(2, Some(20), "file", "d"))),
        (5usize, Ok(ev(3, Some(0), "file", "e"))),
    ];
    let (evs, errs) = parse_jsonl(decoded);
    assert!(errs.is_empty());
    let order: Vec<&str> = evs.iter().map(|e| e.target.as_str()).collect();
    // c (-3), then b and e share key (0, 3) and keep their order, then d (20, 2), a (20, 5)
    assert_eq!(order, vec!["c", "b", "e", "d", "a"]);
}

#[test]
fn epoch_keys_follow_float_order() {
    let xs = [-1e9, -2.5, -0.0, 0.0, 1e-9, 3.0, 1780000012.5, 1780000013.0];
    for w in xs.windows(2) {
        assert!(epoch_key(w[0]) <= epoch_key(w[1]));
    }
    assert_eq!(epoch_key(-0.0), epoch_key(0.0));
}

#[test]
fn label_names_the_event() {
    assert_eq!(ev(1, None, "exec", "").label(), "exec /bin/x");
    assert_eq!(ev(1, None, "file", "/etc/passwd").label(), "file /etc/passwd");
    assert_eq!(ev(1, None, "net-connect", "1.2.3.4:80").label(), "connect 1.2.3.4:80");
    assert_eq!(ev(1, None, "net-accept", "0.0.0.0:22").label(), "accept 0.0.0.0:22");
    assert_eq!(ev(1, None, "socket", "x").label(), "socket x");
    assert_eq!(ev(1, None, "user-add", "eve").label(), "useradd eve");
    assert_eq!(ev(1, None, "chmod", "/tmp/a").label(), "chmod /tmp/a");
}
