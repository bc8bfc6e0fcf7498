//! Rule engine — single-event detections on the telemetry stream.
//!
//! Rules are deliberately simple: they flag suspicious single events. The
//! correlation layer (correlate.rs) is what elevates them into incidents by
//! combining rules with process-tree reachability and taint flows.
use vstd::prelude::*;

use crate::event::Event;
use crate::text::{
    ascii_lower, chars_of, contains, ends_with, has_char, has_prefix, has_sub, has_suffix,
    is_digit, pieces, same_text, split, starts_with, to_lower, Sep,
};

verus! {

/// How serious a signal or an incident is, from least to most.
#[derive(Debug, Clone, Copy, PartialEq, Eq, PartialOrd, Ord, Structural)]
pub enum Severity {
    Info,
    Low,
    Medium,
    High,
    Critical,
}

/// The position of a severity in the scale `Info < Low < Medium < High <
/// Critical` (the order the derived `Ord` gives).
pub open spec fn rank(s: Severity) -> int {
    match s {
        Severity::Info => 0,
        Severity::Low => 1,
        Severity::Medium => 2,
        Severity::High => 3,
        Severity::Critical => 4,
    }
}

/// `rank` for executable code.
pub fn severity_rank(s: Severity) -> (r: u8)
    ensures
        r as int == rank(s),
{
    match s {
        Severity::Info => 0,
        Severity::Low => 1,
        Severity::Medium => 2,
        Severity::High => 3,
        Severity::Critical => 4,
    }
}

/// The lower-case name of a severity.
pub open spec fn severity_label(s: Severity) -> Seq<char> {
    match s {
        Severity::Info => "info"@,
        Severity::Low => "low"@,
        Severity::Medium => "medium"@,
        Severity::High => "high"@,
        Severity::Critical => "critical"@,
    }
}

impl Severity {
    pub fn label(&self) -> (s: &'static str)
        ensures
            s@ == severity_label(*self),
    {
        match self {
            Severity::Info => "info",
            Severity::Low => "low",
            Severity::Medium => "medium",
            Severity::High => "high",
            Severity::Critical => "critical",
        }
    }
}

/// One rule signal on one event.
#[derive(Debug, Clone)]
pub struct Finding {
    pub rule_id: &'static str,
    pub title: &'static str,
    pub severity: Severity,
    pub seq: u64,
    pub pid: u32,
    pub exe: String,
    pub detail: String,
}

/// The number of rules.
pub const RULE_COUNT: usize = 10;

/// The id of rule `r` (counted from 0).
pub open spec fn rule_id(r: int) -> Seq<char> {
    if r == 0 {
        "LT001"@
    } else if r == 1 {
        "LT002"@
    } else if r == 2 {
        "LT003"@
    } else if r == 3 {
        "LT004"@
    } else if r == 4 {
        "LT005"@
    } else if r == 5 {
        "LT006"@
    } else if r == 6 {
        "LT007"@
    } else if r == 7 {
        "LT008"@
    } else if r == 8 {
        "LT009"@
    } else {
        "LT010"@
    }
}

/// The title of rule `r`.
pub open spec fn rule_title(r: int) -> Seq<char> {
    if r == 0 {
        "Reverse shell pattern in command line"@
    } else if r == 1 {
        "Privilege escalation attempt (sudo/su from non-root session)"@
    } else if r == 2 {
        "User account created"@
    } else if r == 3 {
        "SSH key material accessed"@
    } else if r == 4 {
        "Cloud credentials file accessed"@
    } else if r == 5 {
        "Outbound connection to raw IP (no hostname resolution)"@
    } else if r == 6 {
        "Cron/service persistence modified"@
    } else if r == 7 {
        "History/log file truncated (anti-forensics)"@
    } else if r == 8 {
        "Database dump created"@
    } else {
        "Archive of sensitive scope created"@
    }
}

/// The severity of rule `r`.
pub open spec fn rule_severity(r: int) -> Severity {
    if r == 0 {
        Severity::Critical
    } else if r == 1 || r == 2 || r == 6 {
        Severity::High
    } else if r == 5 {
        Severity::Low
    } else {
        Severity::Medium
    }
}

/// LT001: classic reverse-shell primitives in the command line.
pub open spec fn reverse_shell(c: Seq<char>) -> bool {
    &&& has_sub(c, "sh"@)
    &&& has_sub(c, "/dev/tcp/"@) || has_sub(c, "mkfifo"@) || has_sub(c, "nc -e"@) || has_sub(
        c,
        "ncat -e"@,
    ) || has_sub(c, "socat EXEC"@)
}

/// LT002: sudo/su executed by a non-root user.
pub open spec fn privilege_escalation(e: Event) -> bool {
    &&& e.kind@ == "exec"@
    &&& has_suffix(e.exe@, "/sudo"@) || has_suffix(e.exe@, "/su"@) || has_prefix(
        e.cmdline@,
        "sudo "@,
    )
    &&& e.uid != 0
}

/// LT004: SSH key material read (`t` is the lower-cased target).
pub open spec fn ssh_key_access(t: Seq<char>) -> bool {
    has_sub(t, "/.ssh/"@) && (has_suffix(t, "id_rsa"@) || has_suffix(t, "id_ed25519"@) || has_sub(
        t,
        "authorized_keys"@,
    ))
}

/// LT005: a cloud credential store (`t` is the lower-cased target).
pub open spec fn cloud_store(t: Seq<char>) -> bool {
    has_sub(t, ".aws/credentials"@) || has_sub(t, ".config/gcloud"@) || has_sub(t, ".kube/config"@)
}

/// The host part of a `host:port` target: the text before the first `:`.
pub open spec fn host_of(target: Seq<char>) -> Seq<char> {
    pieces(target, Sep::Char(':'))[0]
}

/// A host written as a dotted number: only digits and dots, at least one dot.
pub open spec fn raw_ip(host: Seq<char>) -> bool {
    &&& host.len() > 0
    &&& forall|i: int| 0 <= i < host.len() ==> is_digit(#[trigger] host[i]) || host[i] == '.'
    &&& host.contains('.')
}

/// LT007 (file form): a persistence location (`t` lower-cased target).
pub open spec fn persistence_path(t: Seq<char>) -> bool {
    has_sub(t, "/etc/cron"@) || has_sub(t, "/etc/systemd/system"@) || has_sub(
        t,
        "/.ssh/authorized_keys"@,
    )
}

/// LT007 (exec form): a persistence command (`c` lower-cased command line).
pub open spec fn persistence_command(c: Seq<char>) -> bool {
    has_sub(c, "crontab"@) || has_sub(c, "systemctl enable"@) || has_sub(c, "systemctl link"@)
}

/// LT008: a log or history file wiped (`t`, `c` lower-cased).
pub open spec fn log_wipe(t: Seq<char>, c: Seq<char>) -> bool {
    &&& has_sub(t, "/.bash_history"@) || has_sub(t, "/var/log/"@)
    &&& has_sub(c, "> "@) || has_sub(c, "truncate"@) || has_sub(c, "shred"@) || has_sub(
        c,
        "echo -n"@,
    )
}

/// LT009: a database dump command (`c` lower-cased command line).
pub open spec fn db_dump(c: Seq<char>) -> bool {
    has_sub(c, "mysqldump"@) || has_sub(c, "pg_dump"@) || (has_sub(c, "sqlite3"@) && has_sub(
        c,
        ".dump"@,
    ))
}

/// LT010: an archive over sensitive paths (`c` lower-cased command line).
pub open spec fn sensitive_archive(c: Seq<char>) -> bool {
    &&& has_sub(c, "tar "@) || has_sub(c, "zip "@) || has_sub(c, "7z "@)
    &&& has_sub(c, ".aws"@) || has_sub(c, ".ssh"@) || has_sub(c, "/etc/"@) || has_sub(c, "home"@)
}

/// What rule `r` reports on event `e`: `Some(detail)` when it fires. A
/// failed call is skipped entirely: no rule fires on it.
pub open spec fn rule_detail(r: int, e: Event) -> Option<Seq<char>> {
    let t = ascii_lower(e.target@);
    let c = ascii_lower(e.cmdline@);
    let k = e.kind@;
    if !e.success {
        None
    } else if r == 0 {
        if reverse_shell(e.cmdline@) {
            Some("classic reverse-shell primitives (bash /dev/tcp, mkfifo, nc -e) in argv"@)
        } else {
            None
        }
    } else if r == 1 {
        if privilege_escalation(e) {
            Some("privilege escalation binary executed by non-root user"@)
        } else {
            None
        }
    } else if r == 2 {
        if k == "user-add"@ {
            Some("new local account created"@)
        } else {
            None
        }
    } else if r == 3 {
        if k == "file"@ && ssh_key_access(t) {
            Some("process read private/authorized SSH key material"@)
        } else {
            None
        }
    } else if r == 4 {
        if k == "file"@ && cloud_store(t) {
            Some("cloud provider credential store touched"@)
        } else {
            None
        }
    } else if r == 5 {
        if k == "net-connect"@ && raw_ip(host_of(e.target@)) {
            Some("direct IP connection (bypasses DNS logging)"@)
        } else {
            None
        }
    } else if r == 6 {
        if k == "file"@ && persistence_path(t) {
            Some("persistence location written"@)
        } else if k == "exec"@ && persistence_command(c) {
            Some("persistence mechanism registered"@)
        } else {
            None
        }
    } else if r == 7 {
        if k == "file"@ && log_wipe(t, c) {
            Some("log or shell history appears truncated/wiped"@)
        } else {
            None
        }
    } else if r == 8 {
        if k == "exec"@ && db_dump(c) {
            Some("database dump command executed"@)
        } else {
            None
        }
    } else {
        if k == "exec"@ && sensitive_archive(c) {
            Some("archive command covers sensitive paths"@)
        } else {
            None
        }
    }
}

/// The rules among the first `n` that fire on `e`, in rule order.
pub open spec fn fired_below(e: Event, n: nat) -> Seq<int>
    decreases n,
{
    if n == 0 {
        Seq::empty()
    } else {
        let prev = fired_below(e, (n - 1) as nat);
        if rule_detail(n - 1, e) is Some {
            prev.push(n - 1)
        } else {
            prev
        }
    }
}

/// The rules that fire on `e`, in rule order.
pub open spec fn fired(e: Event) -> Seq<int> {
    fired_below(e, RULE_COUNT as nat)
}

/// The (event index, rule) pairs of all signals on `evs`: events in stream
/// order, and for each event the rules that fire on it in rule order.
pub open spec fn hits(evs: Seq<Event>) -> Seq<(int, int)>
    decreases evs.len(),
{
    if evs.len() == 0 {
        Seq::empty()
    } else {
        hits(evs.drop_last()) + fired(evs.last()).map_values(|r: int| ((evs.len() - 1) as int, r))
    }
}

/// Every signal names an event of the stream and a rule.
pub proof fn lemma_hits_bounds(evs: Seq<Event>)
    ensures
        forall|j: int|
            0 <= j < hits(evs).len() ==> 0 <= #[trigger] hits(evs)[j].0 < evs.len() && 0
                <= hits(evs)[j].1 < RULE_COUNT,
    decreases evs.len(),
{
    if evs.len() > 0 {
        lemma_hits_bounds(evs.drop_last());
        lemma_fired_bounds(evs.last(), RULE_COUNT as nat);
        let prev = hits(evs.drop_last());
        let add = fired(evs.last()).map_values(|r: int| ((evs.len() - 1) as int, r));
        assert forall|j: int| 0 <= j < hits(evs).len() implies 0 <= #[trigger] hits(evs)[j].0
            < evs.len() && 0 <= hits(evs)[j].1 < RULE_COUNT by {
            if j >= prev.len() {
                assert(hits(evs)[j] == add[j - prev.len()]);
            } else {
                assert(hits(evs)[j] == prev[j]);
            }
        }
    }
}

/// The rules that fire are among the first `n`, in increasing order.
pub proof fn lemma_fired_bounds(e: Event, n: nat)
    ensures
        forall|j: int| 0 <= j < fired_below(e, n).len() ==> 0 <= #[trigger] fired_below(e, n)[j] < n,
        forall|j: int, k: int|
            0 <= j < k < fired_below(e, n).len() ==> fired_below(e, n)[j] < fired_below(e, n)[k],
    decreases n,
{
    if n > 0 {
        lemma_fired_bounds(e, (n - 1) as nat);
        let prev = fired_below(e, (n - 1) as nat);
        let cur = fired_below(e, n);
        if rule_detail(n - 1, e) is Some {
            assert(cur == prev.push(n - 1));
            assert forall|j: int| 0 <= j < cur.len() implies 0 <= #[trigger] cur[j] < n by {
                if j < prev.len() {
                    assert(cur[j] == prev[j]);
                }
            }
            assert forall|j: int, k: int| 0 <= j < k < cur.len() implies cur[j] < cur[k] by {
                assert(cur[j] == prev[j]);
                if k < prev.len() {
                    assert(cur[k] == prev[k]);
                }
            }
        }
    }
}

/// `f` is the signal of rule `r` on event `e`.
pub open spec fn finding_of(f: Finding, r: int, e: Event) -> bool {
    &&& f.rule_id@ == rule_id(r)
    &&& f.title@ == rule_title(r)
    &&& f.severity == rule_severity(r)
    &&& f.seq == e.seq
    &&& f.pid == e.pid
    &&& f.exe@ == e.exe@
    &&& rule_detail(r, e) == Some(f.detail@)
}

/// `out` holds exactly the signals of `evs`, in order.
pub open spec fn findings_of(out: Seq<Finding>, evs: Seq<Event>) -> bool {
    &&& out.len() == hits(evs).len()
    &&& forall|i: int|
        0 <= i < out.len() ==> finding_of(
            #[trigger] out[i],
            hits(evs)[i].1,
            evs[hits(evs)[i].0],
        )
}

/// The text fields of an event, and their lower-cased forms, as characters.
struct Prepared {
    kind: Vec<char>,
    exe: Vec<char>,
    cmdline: Vec<char>,
    target: Vec<char>,
    lower_cmdline: Vec<char>,
    lower_target: Vec<char>,
}

spec fn prepared_for(p: Prepared, e: Event) -> bool {
    &&& p.kind@ == e.kind@
    &&& p.exe@ == e.exe@
    &&& p.cmdline@ == e.cmdline@
    &&& p.target@ == e.target@
    &&& p.lower_cmdline@ == ascii_lower(e.cmdline@)
    &&& p.lower_target@ == ascii_lower(e.target@)
}

fn prepare(e: &Event) -> (p: Prepared)
    ensures
        prepared_for(p, *e),
{
    let cmdline = chars_of(e.cmdline.as_str());
    let target = chars_of(e.target.as_str());
    let lower_cmdline = to_lower(cmdline.as_slice());
    let lower_target = to_lower(target.as_slice());
    Prepared {
        kind: chars_of(e.kind.as_str()),
        exe: chars_of(e.exe.as_str()),
        cmdline,
        target,
        lower_cmdline,
        lower_target,
    }
}

fn check_reverse_shell(c: &[char]) -> (r: bool)
    ensures
        r == reverse_shell(c@),
{
    if !contains(c, "sh") {
        return false;
    }
    contains(c, "/dev/tcp/") || contains(c, "mkfifo") || contains(c, "nc -e") || contains(
        c,
        "ncat -e",
    ) || contains(c, "socat EXEC")
}

fn check_raw_ip(target: &[char]) -> (r: bool)
    ensures
        r == raw_ip(host_of(target@)),
{
    let parts = split(target, Sep::Char(':'));
    proof {
        crate::text::lemma_pieces_nonempty(target@, Sep::Char(':'));
        assert(parts.deep_view()[0] == parts@[0].deep_view());
        assert(parts@[0].deep_view() =~= parts@[0]@);
    }
    let host = &parts[0];
    if host.len() == 0 {
        return false;
    }
    let mut i: usize = 0;
    while i < host.len()
        invariant
            host@ == host_of(target@),
            i <= host@.len(),
            forall|k: int| 0 <= k < i ==> is_digit(#[trigger] host@[k]) || host@[k] == '.',
        decreases host.len() - i,
    {
        let ch = host[i];
        if !(('0' <= ch && ch <= '9') || ch == '.') {
            assert(!(is_digit(host@[i as int]) || host@[i as int] == '.'));
            return false;
        }
        i = i + 1;
    }
    has_char(host.as_slice(), '.')
}

/// Rule `r` applied to event `e` (whose text fields `p` holds).
fn apply_rule(r: usize, e: &Event, p: &Prepared) -> (d: Option<&'static str>)
    requires
        r < RULE_COUNT,
        prepared_for(*p, *e),
    ensures
        match d {
            Some(x) => rule_detail(r as int, *e) == Some(x@),
            None => rule_detail(r as int, *e) is None,
        },
{
    let k = p.kind.as_slice();
    let t = p.lower_target.as_slice();
    let c = p.lower_cmdline.as_slice();
    if !e.success {
        None
    } else if r == 0 {
        if check_reverse_shell(p.cmdline.as_slice()) {
            Some("classic reverse-shell primitives (bash /dev/tcp, mkfifo, nc -e) in argv")
        } else {
            None
        }
    } else if r == 1 {
        let x = p.exe.as_slice();
        if same_text(k, "exec") && (ends_with(x, "/sudo") || ends_with(x, "/su") || starts_with(
            p.cmdline.as_slice(),
            "sudo ",
        )) && e.uid != 0 {
            Some("privilege escalation binary executed by non-root user")
        } else {
            None
        }
    } else if r == 2 {
        if same_text(k, "user-add") {
            Some("new local account created")
        } else {
            None
        }
    } else if r == 3 {
        if same_text(k, "file") && (contains(t, "/.ssh/") && (ends_with(t, "id_rsa") || ends_with(
            t,
            "id_ed25519",
        ) || contains(t, "authorized_keys"))) {
            Some("process read private/authorized SSH key material")
        } else {
            None
        }
    } else if r == 4 {
        if same_text(k, "file") && (contains(t, ".aws/credentials") || contains(
            t,
            ".config/gcloud",
        ) || contains(t, ".kube/config")) {
            Some("cloud provider credential store touched")
        } else {
            None
        }
    } else if r == 5 {
        if same_text(k, "net-connect") && check_raw_ip(p.target.as_slice()) {
            Some("direct IP connection (bypasses DNS logging)")
        } else {
            None
        }
    } else if r == 6 {
        if same_text(k, "file") && (contains(t, "/etc/cron") || contains(t, "/etc/systemd/system")
            || contains(t, "/.ssh/authorized_keys")) {
            Some("persistence location written")
        } else if same_text(k, "exec") && (contains(c, "crontab") || contains(
            c,
            "systemctl enable",
        ) || contains(c, "systemctl link")) {
            Some("persistence mechanism registered")
        } else {
            None
        }
    } else if r == 7 {
        if same_text(k, "file") && (contains(t, "/.bash_history") || contains(t, "/var/log/")) && (
        contains(c, "> ") || contains(c, "truncate") || contains(c, "shred") || contains(
            c,
            "echo -n",
        )) {
            Some("log or shell history appears truncated/wiped")
        } else {
            None
        }
    } else if r == 8 {
        if same_text(k, "exec") && (contains(c, "mysqldump") || contains(c, "pg_dump") || (contains(
            c,
            "sqlite3",
        ) && contains(c, ".dump"))) {
            Some("database dump command executed")
        } else {
            None
        }
    } else {
        if same_text(k, "exec") && (contains(c, "tar ") || contains(c, "zip ") || contains(c, "7z "))
            && (contains(c, ".aws") || contains(c, ".ssh") || contains(c, "/etc/") || contains(
            c,
            "home",
        )) {
            Some("archive command covers sensitive paths")
        } else {
            None
        }
    }
}

/// The id, title and severity of rule `r`.
fn rule_meta(r: usize) -> (m: (&'static str, &'static str, Severity))
    requires
        r < RULE_COUNT,
    ensures
        m.0@ == rule_id(r as int),
        m.1@ == rule_title(r as int),
        m.2 == rule_severity(r as int),
{
    if r == 0 {
        ("LT001", "Reverse shell pattern in command line", Severity::Critical)
    } else if r == 1 {
        ("LT002", "Privilege escalation attempt (sudo/su from non-root session)", Severity::High)
    } else if r == 2 {
        ("LT003", "User account created", Severity::High)
    } else if r == 3 {
        ("LT004", "SSH key material accessed", Severity::Medium)
    } else if r == 4 {
        ("LT005", "Cloud credentials file accessed", Severity::Medium)
    } else if r == 5 {
        ("LT006", "Outbound connection to raw IP (no hostname resolution)", Severity::Low)
    } else if r == 6 {
        ("LT007", "Cron/service persistence modified", Severity::High)
    } else if r == 7 {
        ("LT008", "History/log file truncated (anti-forensics)", Severity::Medium)
    } else if r == 8 {
        ("LT009", "Database dump created", Severity::Medium)
    } else {
        ("LT010", "Archive of sensitive scope created", Severity::Medium)
    }
}

/// Run all rules over the stream; return findings in stream order (and,
/// for one event, in rule order).
pub fn run(events: &[Event]) -> (out: Vec<Finding>)
    ensures
        findings_of(out@, events@),
{
    let mut out: Vec<Finding> = Vec::new();
    let mut i: usize = 0;
    while i < events.len()
        invariant
            i <= events@.len(),
            findings_of(out@, events@.take(i as int)),
        decreases events.len() - i,
    {
        let e = &events[i];
        let p = prepare(e);
        let ghost before = out@;
        let ghost evs_i = events@.take(i as int);
        let mut r: usize = 0;
        while r < RULE_COUNT
            invariant
                i < events@.len(),
                e == events@[i as int],
                prepared_for(p, *e),
                r <= RULE_COUNT,
                findings_of(before, evs_i),
                out@.len() == before.len() + fired_below(*e, r as nat).len(),
                forall|j: int| 0 <= j < before.len() ==> out@[j] == before[j],
                forall|j: int|
                    0 <= j < fired_below(*e, r as nat).len() ==> finding_of(
                        #[trigger] out@[before.len() + j],
                        fired_below(*e, r as nat)[j],
                        *e,
                    ),
            decreases RULE_COUNT - r,
        {
            if let Some(detail) = apply_rule(r, e, &p) {
                let (id, title, severity) = rule_meta(r);
                out.push(
                    Finding {
                        rule_id: id,
                        title,
                        severity,
                        seq: e.seq,
                        pid: e.pid,
                        exe: e.exe.clone(),
                        detail: detail.to_owned(),
                    },
                );
            }
            r = r + 1;
        }
        proof {
            lemma_hits_bounds(evs_i);
            let evs_n = events@.take(i + 1);
            assert(evs_n.drop_last() =~= evs_i);
            assert(evs_n.last() == *e);
            let add = fired(*e).map_values(|rr: int| (i as int, rr));
            assert(hits(evs_n) == hits(evs_i) + add);
            assert forall|j: int| 0 <= j < out@.len() implies finding_of(
                #[trigger] out@[j],
                hits(evs_n)[j].1,
                evs_n[hits(evs_n)[j].0],
            ) by {
                if j < before.len() {
                    assert(hits(evs_n)[j] == hits(evs_i)[j]);
                    assert(out@[j] == before[j]);
                    assert(evs_n[hits(evs_i)[j].0] == evs_i[hits(evs_i)[j].0]);
                } else {
                    let jj = j - before.len();
                    assert(hits(evs_n)[j] == add[jj]);
                    assert(out@[before.len() + jj] == out@[j]);
                }
            }
        }
        i = i + 1;
    }
    assert(events@.take(events@.len() as int) =~= events@);
    out
}


/// Rules look at single events: the signals of two streams played one
/// after the other are the signals of the first followed by those of the
/// second (whose event positions are shifted past the first).
pub proof fn law_rules_are_per_event(a: Seq<Event>, b: Seq<Event>)
    ensures
        hits(a + b) == hits(a) + hits(b).map_values(|h: (int, int)| (h.0 + a.len(), h.1)),
    decreases b.len(),
{
    if b.len() == 0 {
        assert(a + b =~= a);
        assert(hits(b).map_values(|h: (int, int)| (h.0 + a.len(), h.1)) =~= Seq::<(int, int)>::empty());
    } else {
        let d = b.drop_last();
        law_rules_are_per_event(a, d);
        assert((a + b).drop_last() =~= a + d);
        assert((a + b).last() == b.last());
        let add = fired(b.last()).map_values(|r: int| ((a.len() + b.len() - 1) as int, r));
        let add_b = fired(b.last()).map_values(|r: int| ((b.len() - 1) as int, r));
        assert(hits(a + b) == hits(a + d) + add);
        assert(hits(b) == hits(d) + add_b);
        assert(hits(b).map_values(|h: (int, int)| (h.0 + a.len(), h.1)) =~= hits(d).map_values(
            |h: (int, int)| (h.0 + a.len(), h.1),
        ) + add);
        assert(hits(a + b) =~= hits(a) + hits(b).map_values(|h: (int, int)| (h.0 + a.len(), h.1)));
    }
}


/// No rule among the first `n` fires on a failed event.
proof fn lemma_failed_fires_none(e: Event, n: nat)
    requires
        !e.success,
    ensures
        fired_below(e, n) == Seq::<int>::empty(),
    decreases n,
{
    if n > 0 {
        lemma_failed_fires_none(e, (n - 1) as nat);
    }
}

/// Failed calls are skipped entirely: no rule fires on a failed event, and
/// every signal of a stream comes from one of its successful events.
pub proof fn law_failed_events_raise_nothing(e: Event, evs: Seq<Event>)
    ensures
        !e.success ==> fired(e) == Seq::<int>::empty(),
        forall|j: int| 0 <= j < hits(evs).len() ==> (#[trigger] evs[hits(evs)[j].0]).success,
    decreases evs.len(),
{
    if !e.success {
        lemma_failed_fires_none(e, RULE_COUNT as nat);
    }
    if evs.len() > 0 {
        let d = evs.drop_last();
        law_failed_events_raise_nothing(evs.last(), d);
        lemma_hits_bounds(d);
        let add = fired(evs.last()).map_values(|r: int| ((evs.len() - 1) as int, r));
        assert forall|j: int| 0 <= j < hits(evs).len() implies (#[trigger] evs[hits(evs)[j].0]).success by {
            if j < hits(d).len() {
                assert(hits(evs)[j] == hits(d)[j]);
                assert(evs[hits(d)[j].0] == d[hits(d)[j].0]);
            } else {
                assert(hits(evs)[j] == add[j - hits(d).len()]);
                if !evs.last().success {
                    assert(add.len() == 0);
                }
            }
        }
    }
}

/// The rules among the first `n` that fire on `e` are exactly those whose
/// detail is present.
proof fn lemma_fired_below_contains(e: Event, n: nat, r: int)
    ensures
        fired_below(e, n).contains(r) <==> 0 <= r < n && rule_detail(r, e) is Some,
    decreases n,
{
    if n > 0 {
        lemma_fired_below_contains(e, (n - 1) as nat, r);
        let prev = fired_below(e, (n - 1) as nat);
        if rule_detail(n - 1, e) is Some {
            let cur = prev.push(n - 1);
            assert(cur[cur.len() - 1] == n - 1);
            if prev.contains(r) {
                let k = choose|k: int| 0 <= k < prev.len() && prev[k] == r;
                assert(cur[k] == r);
            }
            if cur.contains(r) {
                let k = choose|k: int| 0 <= k < cur.len() && cur[k] == r;
                if k < prev.len() {
                    assert(prev[k] == r);
                }
            }
        }
    }
}

/// Database dumps (LT009): a successful exec whose command line, in any
/// letter case, runs `mysqldump`, `pg_dump`, or `sqlite3` with `.dump`
/// raises the Medium signal "Database dump created".
pub proof fn law_database_dumps_flagged(e: Event)
    requires
        e.success,
        e.kind@ == "exec"@,
        has_sub(ascii_lower(e.cmdline@), "mysqldump"@) || has_sub(ascii_lower(e.cmdline@), "pg_dump"@)
            || (has_sub(ascii_lower(e.cmdline@), "sqlite3"@) && has_sub(
            ascii_lower(e.cmdline@),
            ".dump"@,
        )),
    ensures
        fired(e).contains(8),
        rule_id(8) == "LT009"@,
        rule_title(8) == "Database dump created"@,
        rule_severity(8) == Severity::Medium,
        rule_detail(8, e) == Some("database dump command executed"@),
{
    lemma_fired_below_contains(e, RULE_COUNT as nat, 8);
}

} // verus!
