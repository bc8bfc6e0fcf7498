//! Correlation layer — elevates isolated findings into incidents.
//!
//! An incident is born when:
//! 1. multiple findings share a process chain (same ancestry), or
//! 2. a finding is upstream of a taint flow (sensitive data reached a sink),
//! or both. Each incident gets an aggregated severity: the max of its parts,
//! raised one level when chain + taint confirm each other.
use vstd::prelude::*;

use crate::event::Event;
use crate::proctree::{chain_of, chain_text, ProcTree, TreeView};
use crate::rules::{rank, severity_rank, Finding, Severity};
use crate::sorted::{ascending, insert_unique, lemma_ascending_of, strictly_increasing};
use crate::taint::{flow_views, FlowView, TaintFlow, TaintKind, TaintId};
use crate::text::{decimal, decimal_chars, joined, push_chars, push_str, string_of};

verus! {

#[derive(Debug, Clone)]
pub struct Incident {
    pub title: String,
    pub severity: Severity,
    /// pids participating (deduped)
    pub actors: Vec<u32>,
    /// rendered chain of the primary actor
    pub chain: String,
    /// rule ids involved
    pub findings: Vec<String>,
    /// taint kinds confirmed (if any)
    pub taints: Vec<String>,
    /// seq range covering the incident
    pub seq_from: u64,
    pub seq_to: u64,
    /// narrative summary for the report
    pub summary: String,
}

/// An incident, with its texts as characters.
pub struct IncidentView {
    pub title: Seq<char>,
    pub severity: Severity,
    pub actors: Seq<u32>,
    pub chain: Seq<char>,
    pub findings: Seq<Seq<char>>,
    pub taints: Seq<Seq<char>>,
    pub seq_from: u64,
    pub seq_to: u64,
    pub summary: Seq<char>,
}

impl View for Incident {
    type V = IncidentView;

    open spec fn view(&self) -> IncidentView {
        IncidentView {
            title: self.title@,
            severity: self.severity,
            actors: self.actors@,
            chain: self.chain@,
            findings: self.findings@.map_values(|s: String| s@),
            taints: self.taints@.map_values(|s: String| s@),
            seq_from: self.seq_from,
            seq_to: self.seq_to,
            summary: self.summary@,
        }
    }
}

/// The views of a list of incidents.
pub open spec fn incident_views(v: Seq<Incident>) -> Seq<IncidentView> {
    v.map_values(|i: Incident| i@)
}

// ------------------------------------------------------------------------
// Severity arithmetic
// ------------------------------------------------------------------------

/// One level up the scale (Critical stays Critical).
pub open spec fn raised(s: Severity) -> Severity {
    match s {
        Severity::Critical => Severity::Critical,
        Severity::High => Severity::Critical,
        Severity::Medium => Severity::High,
        Severity::Low => Severity::Medium,
        Severity::Info => Severity::Low,
    }
}

/// The greater of two severities (the first one on a tie).
pub open spec fn greater(a: Severity, b: Severity) -> Severity {
    if rank(a) >= rank(b) {
        a
    } else {
        b
    }
}

fn raise(s: Severity) -> (r: Severity)
    ensures
        r == raised(s),
{
    match s {
        Severity::Critical => Severity::Critical,
        Severity::High => Severity::Critical,
        Severity::Medium => Severity::High,
        Severity::Low => Severity::Medium,
        Severity::Info => Severity::Low,
    }
}

fn max_sev(a: Severity, b: Severity) -> (r: Severity)
    ensures
        r == greater(a, b),
{
    if severity_rank(a) >= severity_rank(b) {
        a
    } else {
        b
    }
}

// ------------------------------------------------------------------------
// Grouping
// ------------------------------------------------------------------------

/// The root of `pid`'s chain: its highest ancestor observed in telemetry.
pub open spec fn root_of(t: TreeView, pid: u32) -> u32 {
    chain_of(t.parent, pid)[0]
}

/// The roots of all findings.
pub open spec fn finding_roots(t: TreeView, fs: Seq<Finding>) -> Set<u32> {
    Set::new(|r: u32| exists|i: int| 0 <= i < fs.len() && root_of(t, #[trigger] fs[i].pid) == r)
}

/// The findings whose chain has root `r`, in order.
pub open spec fn bucket(t: TreeView, fs: Seq<Finding>, r: u32) -> Seq<Finding>
    decreases fs.len(),
{
    if fs.len() == 0 {
        fs
    } else {
        let prev = bucket(t, fs.drop_last(), r);
        if root_of(t, fs.last().pid) == r {
            prev.push(fs.last())
        } else {
            prev
        }
    }
}

/// The flows whose sink process has chain root `r`, in order.
pub open spec fn flow_bucket(t: TreeView, fl: Seq<FlowView>, r: u32) -> Seq<FlowView>
    decreases fl.len(),
{
    if fl.len() == 0 {
        fl
    } else {
        let prev = flow_bucket(t, fl.drop_last(), r);
        if root_of(t, fl.last().sink_pid) == r {
            prev.push(fl.last())
        } else {
            prev
        }
    }
}

// ------------------------------------------------------------------------
// One incident
// ------------------------------------------------------------------------

/// The greatest severity among findings (Info for none).
pub open spec fn max_severity(fs: Seq<Finding>) -> Severity
    decreases fs.len(),
{
    if fs.len() == 0 {
        Severity::Info
    } else {
        greater(max_severity(fs.drop_last()), fs.last().severity)
    }
}

/// The index of the primary finding: the last one of greatest severity.
pub open spec fn primary_index(fs: Seq<Finding>) -> int
    decreases fs.len(),
{
    if fs.len() <= 1 {
        0
    } else {
        let p = primary_index(fs.drop_last());
        if rank(fs.last().severity) >= rank(fs[p].severity) {
            fs.len() - 1
        } else {
            p
        }
    }
}

/// The least sequence number among findings (0 for none).
pub open spec fn min_seq(fs: Seq<Finding>) -> u64
    decreases fs.len(),
{
    if fs.len() == 0 {
        0
    } else if fs.len() == 1 {
        fs[0].seq
    } else {
        let m = min_seq(fs.drop_last());
        if fs.last().seq < m {
            fs.last().seq
        } else {
            m
        }
    }
}

/// The greatest of a list of numbers (0 for none).
pub open spec fn max_of(s: Seq<u64>) -> u64
    decreases s.len(),
{
    if s.len() == 0 {
        0
    } else {
        let m = max_of(s.drop_last());
        if s.last() > m {
            s.last()
        } else {
            m
        }
    }
}

/// The sequence numbers covered: those of the findings, then those of the
/// sink events of the flows.
pub open spec fn covered_seqs(fs: Seq<Finding>, tf: Seq<FlowView>) -> Seq<u64> {
    fs.map_values(|f: Finding| f.seq) + tf.map_values(|f: FlowView| f.sink_seq)
}

/// The processes taking part: those of the findings and the sink processes
/// of the flows.
pub open spec fn actor_set(fs: Seq<Finding>, tf: Seq<FlowView>) -> Set<u32> {
    fs.map_values(|f: Finding| f.pid).to_set().union(tf.map_values(|f: FlowView| f.sink_pid).to_set())
}

/// The taint kinds of flows.
pub open spec fn flow_kinds(tf: Seq<FlowView>) -> Set<TaintKind> {
    tf.map_values(|f: FlowView| f.kind).to_set()
}

/// One label if `cond` holds.
pub open spec fn label_if(cond: bool, l: Seq<char>) -> Seq<Seq<char>> {
    if cond {
        seq![l]
    } else {
        Seq::empty()
    }
}

/// The labels of the kinds in `s`, sorted and without repeats: the labels
/// in alphabetical order are cloud-credentials, credentials, crypto-key,
/// database-dump, personal-data, session-token.
pub open spec fn sorted_labels(s: Set<TaintKind>) -> Seq<Seq<char>> {
    label_if(s.contains(TaintKind::CloudCredentials), "cloud-credentials"@) + label_if(
        s.contains(TaintKind::Credentials),
        "credentials"@,
    ) + label_if(s.contains(TaintKind::CryptoKey), "crypto-key"@) + label_if(
        s.contains(TaintKind::DatabaseDump),
        "database-dump"@,
    ) + label_if(s.contains(TaintKind::PersonalData), "personal-data"@) + label_if(
        s.contains(TaintKind::SessionToken),
        "session-token"@,
    )
}

/// The decimal texts of pids.
pub open spec fn pid_texts(ps: Seq<u32>) -> Seq<Seq<char>> {
    ps.map_values(|p: u32| decimal(p as nat))
}

/// The rule ids of findings.
pub open spec fn rule_ids(fs: Seq<Finding>) -> Seq<Seq<char>> {
    fs.map_values(|f: Finding| f.rule_id@)
}

/// The title of an incident.
pub open spec fn incident_title(primary: Finding, n: nat, chained: bool, taints: Seq<Seq<char>>) -> Seq<char> {
    if chained {
        "Data theft chain: "@ + primary.title@ + " with exfiltration of "@ + joined(taints, " + "@)
    } else if n > 1 {
        "Suspicious activity chain: "@ + primary.title@ + " + "@ + decimal((n - 1) as nat)
            + " more signal(s)"@
    } else {
        primary.title@
    }
}

/// The narrative summary of an incident.
pub open spec fn incident_summary(
    actors: Seq<u32>,
    from: u64,
    to: u64,
    ids: Seq<Seq<char>>,
    chained: bool,
    taints: Seq<Seq<char>>,
) -> Seq<char> {
    "actor(s) ["@ + joined(pid_texts(actors), ", "@) + "]; evidence seq "@ + decimal(from as nat)
        + "–"@ + decimal(to as nat) + "; signals: "@ + joined(ids, ", "@) + "; "@ + if chained {
        "taint flows confirmed: "@ + joined(taints, ", "@)
    } else {
        "no taint confirmation"@
    }
}

/// A lone finding below Medium without taint is noise.
pub open spec fn is_noise(fs: Seq<Finding>, tf: Seq<FlowView>) -> bool {
    fs.len() <= 1 && tf.len() == 0 && rank(fs[0].severity) <= 1
}

/// The severity of an incident: the greatest of its findings, raised once
/// when several findings share the chain and once more when taint flows
/// confirm it.
pub open spec fn incident_severity(fs: Seq<Finding>, tf: Seq<FlowView>) -> Severity {
    let s0 = max_severity(fs);
    let s1 = if fs.len() > 1 {
        raised(s0)
    } else {
        s0
    };
    if tf.len() > 0 {
        raised(s1)
    } else {
        s1
    }
}

/// The incident made of the findings `fs` and flows `tf` sharing a chain
/// root, or `None` when it is noise.
pub open spec fn incident_of(t: TreeView, fs: Seq<Finding>, tf: Seq<FlowView>) -> Option<IncidentView> {
    if is_noise(fs, tf) {
        None
    } else {
        let chained = tf.len() > 0;
        let primary = fs[primary_index(fs)];
        let taints = sorted_labels(flow_kinds(tf));
        let actors = ascending(actor_set(fs, tf));
        let from = min_seq(fs);
        let to = max_of(covered_seqs(fs, tf));
        Some(
            IncidentView {
                title: incident_title(primary, fs.len(), chained, taints),
                severity: incident_severity(fs, tf),
                actors,
                chain: chain_text(t, primary.pid),
                findings: rule_ids(fs),
                taints,
                seq_from: from,
                seq_to: to,
                summary: incident_summary(actors, from, to, rule_ids(fs), chained, taints),
            },
        )
    }
}

// ------------------------------------------------------------------------
// All incidents
// ------------------------------------------------------------------------

/// The incidents of the chain roots `rs`, in that order, noise left out.
pub open spec fn incidents_of_roots(
    t: TreeView,
    fs: Seq<Finding>,
    fl: Seq<FlowView>,
    rs: Seq<u32>,
) -> Seq<IncidentView>
    decreases rs.len(),
{
    if rs.len() == 0 {
        Seq::empty()
    } else {
        let prev = incidents_of_roots(t, fs, fl, rs.drop_last());
        match incident_of(t, bucket(t, fs, rs.last()), flow_bucket(t, fl, rs.last())) {
            Some(i) => prev.push(i),
            None => prev,
        }
    }
}

/// The incidents of `s` with severity `sev`, in order.
pub open spec fn with_severity(s: Seq<IncidentView>, sev: Severity) -> Seq<IncidentView>
    decreases s.len(),
{
    if s.len() == 0 {
        s
    } else {
        let prev = with_severity(s.drop_last(), sev);
        if s.last().severity == sev {
            prev.push(s.last())
        } else {
            prev
        }
    }
}

/// `s` stably sorted by severity, most severe first.
pub open spec fn by_severity(s: Seq<IncidentView>) -> Seq<IncidentView> {
    with_severity(s, Severity::Critical) + with_severity(s, Severity::High) + with_severity(
        s,
        Severity::Medium,
    ) + with_severity(s, Severity::Low) + with_severity(s, Severity::Info)
}

/// The incidents correlated from findings and flows: one per chain root
/// (roots in increasing order) that is not noise, then stably sorted by
/// severity, most severe first.
pub open spec fn correlation(t: TreeView, fs: Seq<Finding>, fl: Seq<FlowView>) -> Seq<IncidentView> {
    by_severity(incidents_of_roots(t, fs, fl, ascending(finding_roots(t, fs))))
}

// ------------------------------------------------------------------------
// Executable pieces
// ------------------------------------------------------------------------

/// Every chain has at least one process: the one asked about.
pub proof fn lemma_chain_nonempty(parent: Map<u32, u32>, pid: u32)
    ensures
        chain_of(parent, pid).len() >= 1,
        chain_of(parent, pid).last() == pid,
{
    let up = seq![pid] + crate::proctree::lineage(parent, pid, crate::proctree::MAX_HOPS as nat);
    assert(up[0] == pid);
    assert(chain_of(parent, pid) == up.reverse());
    assert(up.reverse()[up.len() - 1] == up[0]);
}

/// The root of `pid`'s chain.
fn chain_root(tree: &ProcTree, pid: u32) -> (r: u32)
    ensures
        r == root_of(tree@, pid),
{
    let c = tree.chain(pid);
    proof {
        lemma_chain_nonempty(tree@.parent, pid);
    }
    c[0]
}

/// The increasing list of chain roots of the first findings, given their
/// roots.
fn sorted_roots(tree: &ProcTree, findings: &[Finding], roots: &Vec<u32>) -> (rs: Vec<u32>)
    requires
        roots@.len() == findings@.len(),
        forall|i: int| 0 <= i < roots@.len() ==> roots@[i] == root_of(tree@, #[trigger] findings@[i].pid),
    ensures
        rs@ == ascending(finding_roots(tree@, findings@)),
        strictly_increasing(rs@),
        rs@.to_set() == finding_roots(tree@, findings@),
{
    let mut rs: Vec<u32> = Vec::new();
    let mut i: usize = 0;
    while i < roots.len()
        invariant
            roots@.len() == findings@.len(),
            forall|i: int| 0 <= i < roots@.len() ==> roots@[i] == root_of(tree@, #[trigger] findings@[i].pid),
            i <= roots@.len(),
            strictly_increasing(rs@),
            rs@.to_set() == finding_roots(tree@, findings@.take(i as int)),
        decreases roots.len() - i,
    {
        let ghost old_set = rs@.to_set();
        insert_unique(&mut rs, roots[i]);
        assert(rs@.to_set() == old_set.insert(roots@[i as int]));
        assert(rs@.to_set() =~= finding_roots(tree@, findings@.take(i + 1))) by {
            let pre = findings@.take(i as int);
            let cur = findings@.take(i + 1);
            assert forall|r: u32| finding_roots(tree@, cur).contains(r) implies rs@.to_set().contains(r) by {
                let j = choose|j: int| 0 <= j < cur.len() && root_of(tree@, #[trigger] cur[j].pid) == r;
                if j < i {
                    assert(pre[j] == cur[j]);
                    assert(finding_roots(tree@, pre).contains(r));
                } else {
                    assert(cur[j] == findings@[i as int]);
                }
            }
            assert forall|r: u32| rs@.to_set().contains(r) implies finding_roots(tree@, cur).contains(r) by {
                if r != roots@[i as int] {
                    assert(finding_roots(tree@, pre).contains(r));
                    let j = choose|j: int| 0 <= j < pre.len() && root_of(tree@, #[trigger] pre[j].pid) == r;
                    assert(cur[j] == pre[j]);
                } else {
                    assert(cur[i as int] == findings@[i as int]);
                    assert(root_of(tree@, cur[i as int].pid) == r);
                }
            }
        }
        i = i + 1;
    }
    proof {
        assert(findings@.take(findings@.len() as int) =~= findings@);
        lemma_ascending_of(rs@);
    }
    rs
}

/// A copy of a finding.
fn duplicate_finding(f: &Finding) -> (r: Finding)
    ensures
        r == *f,
{
    Finding {
        rule_id: f.rule_id,
        title: f.title,
        severity: f.severity,
        seq: f.seq,
        pid: f.pid,
        exe: f.exe.clone(),
        detail: f.detail.clone(),
    }
}

/// A copy of a flow.
fn duplicate_flow(f: &TaintFlow) -> (r: TaintFlow)
    ensures
        r@ == f@,
{
    TaintFlow {
        taint: TaintId {
            kind: f.taint.kind,
            origin_pid: f.taint.origin_pid,
            carrier: f.taint.carrier.clone(),
        },
        sink_pid: f.sink_pid,
        sink_seq: f.sink_seq,
        sink_kind: f.sink_kind.clone(),
        sink_target: f.sink_target.clone(),
        chain: f.chain.clone(),
    }
}

/// The findings rooted at `r`, given the roots of all findings.
fn findings_rooted_at(tree: &ProcTree, findings: &[Finding], roots: &Vec<u32>, r: u32) -> (out: Vec<Finding>)
    requires
        roots@.len() == findings@.len(),
        forall|i: int| 0 <= i < roots@.len() ==> roots@[i] == root_of(tree@, #[trigger] findings@[i].pid),
    ensures
        out@ == bucket(tree@, findings@, r),
{
    let mut out: Vec<Finding> = Vec::new();
    let mut i: usize = 0;
    while i < findings.len()
        invariant
            roots@.len() == findings@.len(),
            forall|i: int| 0 <= i < roots@.len() ==> roots@[i] == root_of(tree@, #[trigger] findings@[i].pid),
            i <= findings@.len(),
            out@ == bucket(tree@, findings@.take(i as int), r),
        decreases findings.len() - i,
    {
        assert(findings@.take(i + 1).drop_last() =~= findings@.take(i as int));
        if roots[i] == r {
            out.push(duplicate_finding(&findings[i]));
        }
        i = i + 1;
    }
    assert(findings@.take(findings@.len() as int) =~= findings@);
    out
}

/// The flows whose sink is rooted at `r`, given the roots of all flows.
fn flows_rooted_at(tree: &ProcTree, flows: &[TaintFlow], roots: &Vec<u32>, r: u32) -> (out: Vec<TaintFlow>)
    requires
        roots@.len() == flows@.len(),
        forall|i: int| 0 <= i < roots@.len() ==> roots@[i] == root_of(tree@, #[trigger] flows@[i].sink_pid),
    ensures
        flow_views(out@) == flow_bucket(tree@, flow_views(flows@), r),
{
    let ghost fl = flow_views(flows@);
    let mut out: Vec<TaintFlow> = Vec::new();
    let mut i: usize = 0;
    while i < flows.len()
        invariant
            fl == flow_views(flows@),
            roots@.len() == flows@.len(),
            forall|i: int| 0 <= i < roots@.len() ==> roots@[i] == root_of(tree@, #[trigger] flows@[i].sink_pid),
            i <= flows@.len(),
            flow_views(out@) == flow_bucket(tree@, fl.take(i as int), r),
        decreases flows.len() - i,
    {
        assert(fl.take(i + 1).drop_last() =~= fl.take(i as int));
        assert(fl.take(i + 1).last() == flows@[i as int]@);
        let ghost before = flow_views(out@);
        if roots[i] == r {
            out.push(duplicate_flow(&flows[i]));
            assert(flow_views(out@) =~= before.push(flows@[i as int]@));
        }
        i = i + 1;
    }
    assert(fl.take(fl.len() as int) =~= fl);
    out
}

/// Appends `items` joined by `sep`.
fn push_joined(buf: &mut Vec<char>, items: &Vec<String>, sep: &str)
    ensures
        final(buf)@ == old(buf)@ + joined(items@.map_values(|s: String| s@), sep@),
{
    let ghost its = items@.map_values(|s: String| s@);
    let mut i: usize = 0;
    while i < items.len()
        invariant
            its == items@.map_values(|s: String| s@),
            i <= items@.len(),
            buf@ == old(buf)@ + joined(its.take(i as int), sep@),
        decreases items.len() - i,
    {
        let ghost before = buf@;
        if i > 0 {
            push_str(buf, sep);
        }
        push_str(buf, items[i].as_str());
        proof {
            assert(its.take(i + 1).drop_last() =~= its.take(i as int));
            assert(its.take(i + 1).last() == items@[i as int]@);
            if i == 0 {
                assert(its.take(1).len() == 1);
                assert(joined(its.take(0), sep@) =~= Seq::<char>::empty());
                assert(buf@ =~= old(buf)@ + joined(its.take(1), sep@));
            } else {
                assert(buf@ =~= old(buf)@ + joined(its.take(i + 1), sep@));
            }
        }
        i = i + 1;
    }
    assert(its.take(its.len() as int) =~= its);
}

/// The decimal texts of a list of pids.
fn pid_strings(ps: &Vec<u32>) -> (out: Vec<String>)
    ensures
        out@.map_values(|s: String| s@) == pid_texts(ps@),
{
    let mut out: Vec<String> = Vec::new();
    let mut i: usize = 0;
    while i < ps.len()
        invariant
            i <= ps@.len(),
            out@.map_values(|s: String| s@) == pid_texts(ps@.take(i as int)),
        decreases ps.len() - i,
    {
        let d = decimal_chars(ps[i] as u64);
        let ghost before = out@.map_values(|s: String| s@);
        out.push(string_of(d.as_slice()));
        assert(ps@.take(i + 1) =~= ps@.take(i as int).push(ps@[i as int]));
        assert(pid_texts(ps@.take(i + 1)) =~= before.push(decimal(ps@[i as int] as nat)));
        assert(out@.map_values(|s: String| s@) =~= pid_texts(ps@.take(i + 1)));
        i = i + 1;
    }
    assert(ps@.take(ps@.len() as int) =~= ps@);
    out
}


/// The greatest severity of a bucket.
fn bucket_max_severity(fs: &Vec<Finding>) -> (s: Severity)
    ensures
        s == max_severity(fs@),
{
    let mut s = Severity::Info;
    let mut i: usize = 0;
    while i < fs.len()
        invariant
            i <= fs@.len(),
            s == max_severity(fs@.take(i as int)),
        decreases fs.len() - i,
    {
        assert(fs@.take(i + 1).drop_last() =~= fs@.take(i as int));
        s = max_sev(s, fs[i].severity);
        i = i + 1;
    }
    assert(fs@.take(fs@.len() as int) =~= fs@);
    s
}

/// The index of the primary finding of a bucket.
fn bucket_primary(fs: &Vec<Finding>) -> (p: usize)
    requires
        fs@.len() > 0,
    ensures
        p == primary_index(fs@),
        p < fs@.len(),
{
    let mut p: usize = 0;
    let mut i: usize = 1;
    assert(fs@.take(1).len() == 1);
    while i < fs.len()
        invariant
            1 <= i <= fs@.len(),
            p < i,
            p == primary_index(fs@.take(i as int)),
        decreases fs.len() - i,
    {
        assert(fs@.take(i + 1).drop_last() =~= fs@.take(i as int));
        assert(fs@.take(i as int)[p as int] == fs@[p as int]);
        if severity_rank(fs[i].severity) >= severity_rank(fs[p].severity) {
            p = i;
        }
        i = i + 1;
    }
    assert(fs@.take(fs@.len() as int) =~= fs@);
    p
}

/// The least sequence number of a bucket.
fn bucket_min_seq(fs: &Vec<Finding>) -> (m: u64)
    ensures
        m == min_seq(fs@),
{
    if fs.len() == 0 {
        return 0;
    }
    let mut m = fs[0].seq;
    let mut i: usize = 1;
    assert(fs@.take(1) =~= seq![fs@[0]]);
    while i < fs.len()
        invariant
            1 <= i <= fs@.len(),
            m == min_seq(fs@.take(i as int)),
        decreases fs.len() - i,
    {
        assert(fs@.take(i + 1).drop_last() =~= fs@.take(i as int));
        if fs[i].seq < m {
            m = fs[i].seq;
        }
        i = i + 1;
    }
    assert(fs@.take(fs@.len() as int) =~= fs@);
    m
}

/// The greatest sequence number covered by a bucket and its flows.
fn bucket_max_seq(fs: &Vec<Finding>, tf: &Vec<TaintFlow>) -> (m: u64)
    ensures
        m == max_of(covered_seqs(fs@, flow_views(tf@))),
{
    let ghost cs = covered_seqs(fs@, flow_views(tf@));
    let n = fs.len();
    let mut m: u64 = 0;
    let mut i: usize = 0;
    while i < n
        invariant
            n == fs@.len(),
            cs == covered_seqs(fs@, flow_views(tf@)),
            i <= n,
            m == max_of(cs.take(i as int)),
        decreases n - i,
    {
        assert(cs.take(i + 1).drop_last() =~= cs.take(i as int));
        assert(cs[i as int] == fs@[i as int].seq);
        if fs[i].seq > m {
            m = fs[i].seq;
        }
        i = i + 1;
    }
    let mut j: usize = 0;
    while j < tf.len()
        invariant
            n == fs@.len(),
            cs == covered_seqs(fs@, flow_views(tf@)),
            cs.len() == n + tf@.len(),
            j <= tf@.len(),
            m == max_of(cs.take(n + j)),
        decreases tf.len() - j,
    {
        assert(cs.take(n + j + 1).drop_last() =~= cs.take(n + j));
        assert(cs[n + j] == tf@[j as int].sink_seq);
        if tf[j].sink_seq > m {
            m = tf[j].sink_seq;
        }
        j = j + 1;
    }
    assert(cs.take(cs.len() as int) =~= cs);
    m
}

/// The processes taking part in a bucket, in increasing order.
fn bucket_actors(fs: &Vec<Finding>, tf: &Vec<TaintFlow>) -> (a: Vec<u32>)
    ensures
        a@ == ascending(actor_set(fs@, flow_views(tf@))),
{
    let ghost fps = fs@.map_values(|f: Finding| f.pid);
    let ghost tps = flow_views(tf@).map_values(|f: FlowView| f.sink_pid);
    let mut a: Vec<u32> = Vec::new();
    let mut i: usize = 0;
    while i < fs.len()
        invariant
            fps == fs@.map_values(|f: Finding| f.pid),
            i <= fs@.len(),
            strictly_increasing(a@),
            a@.to_set() == fps.take(i as int).to_set(),
        decreases fs.len() - i,
    {
        insert_unique(&mut a, fs[i].pid);
        assert(fps.take(i + 1).to_set() =~= fps.take(i as int).to_set().insert(fps[i as int])) by {
            assert(fps.take(i + 1) =~= fps.take(i as int).push(fps[i as int]));
            assert forall|x: u32| fps.take(i + 1).contains(x) implies fps.take(i as int).to_set().insert(fps[i as int]).contains(x) by {
                let k = choose|k: int| 0 <= k < i + 1 && #[trigger] fps.take(i + 1)[k] == x;
                if k < i {
                    assert(fps.take(i as int)[k] == x);
                }
            }
            assert forall|x: u32| fps.take(i as int).contains(x) implies fps.take(i + 1).contains(x) by {
                let k = choose|k: int| 0 <= k < i && #[trigger] fps.take(i as int)[k] == x;
                assert(fps.take(i + 1)[k] == x);
            }
            assert(fps.take(i + 1)[i as int] == fps[i as int]);
        }
        i = i + 1;
    }
    assert(fps.take(fps.len() as int) =~= fps);
    let mut j: usize = 0;
    while j < tf.len()
        invariant
            fps == fs@.map_values(|f: Finding| f.pid),
            tps == flow_views(tf@).map_values(|f: FlowView| f.sink_pid),
            j <= tf@.len(),
            strictly_increasing(a@),
            a@.to_set() == fps.to_set().union(tps.take(j as int).to_set()),
        decreases tf.len() - j,
    {
        insert_unique(&mut a, tf[j].sink_pid);
        assert(fps.to_set().union(tps.take(j + 1).to_set()) =~= fps.to_set().union(
            tps.take(j as int).to_set(),
        ).insert(tps[j as int])) by {
            assert forall|x: u32| tps.take(j + 1).contains(x) implies tps.take(j as int).to_set().insert(tps[j as int]).contains(x) by {
                let k = choose|k: int| 0 <= k < j + 1 && #[trigger] tps.take(j + 1)[k] == x;
                if k < j {
                    assert(tps.take(j as int)[k] == x);
                }
            }
            assert forall|x: u32| tps.take(j as int).contains(x) implies tps.take(j + 1).contains(x) by {
                let k = choose|k: int| 0 <= k < j && #[trigger] tps.take(j as int)[k] == x;
                assert(tps.take(j + 1)[k] == x);
            }
            assert(tps.take(j + 1)[j as int] == tps[j as int]);
        }
        j = j + 1;
    }
    assert(tps.take(tps.len() as int) =~= tps);
    proof {
        lemma_ascending_of(a@);
    }
    a
}

/// The sorted labels of the taint kinds of a bucket's flows.
fn taint_labels(tf: &Vec<TaintFlow>) -> (out: Vec<String>)
    ensures
        out@.map_values(|s: String| s@) == sorted_labels(flow_kinds(flow_views(tf@))),
{
    let ghost ks = flow_views(tf@).map_values(|f: FlowView| f.kind);
    let mut present = crate::taint::KindSet::empty();
    let mut i: usize = 0;
    while i < tf.len()
        invariant
            ks == flow_views(tf@).map_values(|f: FlowView| f.kind),
            i <= tf@.len(),
            present@ == ks.take(i as int).to_set(),
        decreases tf.len() - i,
    {
        present.insert(tf[i].taint.kind);
        assert(ks.take(i + 1).to_set() =~= ks.take(i as int).to_set().insert(ks[i as int])) by {
            assert forall|x: TaintKind| ks.take(i + 1).contains(x) implies ks.take(i as int).to_set().insert(ks[i as int]).contains(x) by {
                let k = choose|k: int| 0 <= k < i + 1 && #[trigger] ks.take(i + 1)[k] == x;
                if k < i {
                    assert(ks.take(i as int)[k] == x);
                }
            }
            assert forall|x: TaintKind| ks.take(i as int).contains(x) implies ks.take(i + 1).contains(x) by {
                let k = choose|k: int| 0 <= k < i && #[trigger] ks.take(i as int)[k] == x;
                assert(ks.take(i + 1)[k] == x);
            }
            assert(ks.take(i + 1)[i as int] == ks[i as int]);
        }
        i = i + 1;
    }
    assert(ks.take(ks.len() as int) =~= ks);
    let mut out: Vec<String> = Vec::new();
    if present.contains(TaintKind::CloudCredentials) {
        out.push(TaintKind::CloudCredentials.label().to_owned());
    }
    if present.contains(TaintKind::Credentials) {
        out.push(TaintKind::Credentials.label().to_owned());
    }
    if present.contains(TaintKind::CryptoKey) {
        out.push(TaintKind::CryptoKey.label().to_owned());
    }
    if present.contains(TaintKind::DatabaseDump) {
        out.push(TaintKind::DatabaseDump.label().to_owned());
    }
    if present.contains(TaintKind::PersonalData) {
        out.push(TaintKind::PersonalData.label().to_owned());
    }
    if present.contains(TaintKind::SessionToken) {
        out.push(TaintKind::SessionToken.label().to_owned());
    }
    assert(out@.map_values(|s: String| s@) =~= sorted_labels(flow_kinds(flow_views(tf@))));
    out
}

/// The rule ids of a bucket.
fn rule_id_strings(fs: &Vec<Finding>) -> (out: Vec<String>)
    ensures
        out@.map_values(|s: String| s@) == rule_ids(fs@),
{
    let mut out: Vec<String> = Vec::new();
    let mut i: usize = 0;
    while i < fs.len()
        invariant
            i <= fs@.len(),
            out@.map_values(|s: String| s@) == rule_ids(fs@.take(i as int)),
        decreases fs.len() - i,
    {
        let ghost before = out@.map_values(|s: String| s@);
        out.push(fs[i].rule_id.to_owned());
        assert(fs@.take(i + 1) =~= fs@.take(i as int).push(fs@[i as int]));
        assert(rule_ids(fs@.take(i + 1)) =~= before.push(fs@[i as int].rule_id@));
        assert(out@.map_values(|s: String| s@) =~= rule_ids(fs@.take(i + 1)));
        i = i + 1;
    }
    assert(fs@.take(fs@.len() as int) =~= fs@);
    out
}


/// The incident of one bucket of findings (sharing a chain root) and the
/// flows under the same root, or `None` when it is noise.
fn make_incident(tree: &ProcTree, fs: &Vec<Finding>, tf: &Vec<TaintFlow>) -> (r: Option<Incident>)
    requires
        fs@.len() > 0,
    ensures
        match r {
            Some(i) => incident_of(tree@, fs@, flow_views(tf@)) == Some(i@),
            None => incident_of(tree@, fs@, flow_views(tf@)) is None,
        },
{
    let ghost tfv = flow_views(tf@);
    let multi = fs.len() > 1;
    let chained_taint = tf.len() > 0;
    // lone info/low finding without taint is noise; lone medium+ stands alone
    if !multi && !chained_taint {
        if severity_rank(fs[0].severity) <= 1 {
            return None;
        }
    }
    let mut sev = bucket_max_severity(fs);
    if multi {
        sev = raise(sev);
    }
    if chained_taint {
        sev = raise(sev);
    }
    let seq_from = bucket_min_seq(fs);
    let seq_to = bucket_max_seq(fs, tf);
    let actors = bucket_actors(fs, tf);
    let p = bucket_primary(fs);
    let primary = &fs[p];
    let chain = tree.chain_str(primary.pid);
    let taints = taint_labels(tf);
    let ids = rule_id_strings(fs);
    let ghost taint_seq = taints@.map_values(|s: String| s@);

    let mut title: Vec<char> = Vec::new();
    if chained_taint {
        push_str(&mut title, "Data theft chain: ");
        push_str(&mut title, primary.title);
        push_str(&mut title, " with exfiltration of ");
        push_joined(&mut title, &taints, " + ");
    } else if multi {
        push_str(&mut title, "Suspicious activity chain: ");
        push_str(&mut title, primary.title);
        push_str(&mut title, " + ");
        let more = decimal_chars((fs.len() - 1) as u64);
        push_chars(&mut title, more.as_slice());
        push_str(&mut title, " more signal(s)");
    } else {
        push_str(&mut title, primary.title);
    }
    assert(title@ =~= incident_title(*primary, fs@.len(), chained_taint, taint_seq));

    let mut summary: Vec<char> = Vec::new();
    push_str(&mut summary, "actor(s) [");
    let actor_texts = pid_strings(&actors);
    push_joined(&mut summary, &actor_texts, ", ");
    push_str(&mut summary, "]; evidence seq ");
    let from_text = decimal_chars(seq_from);
    push_chars(&mut summary, from_text.as_slice());
    push_str(&mut summary, "–");
    let to_text = decimal_chars(seq_to);
    push_chars(&mut summary, to_text.as_slice());
    push_str(&mut summary, "; signals: ");
    push_joined(&mut summary, &ids, ", ");
    push_str(&mut summary, "; ");
    if chained_taint {
        push_str(&mut summary, "taint flows confirmed: ");
        push_joined(&mut summary, &taints, ", ");
    } else {
        push_str(&mut summary, "no taint confirmation");
    }
    assert(summary@ =~= incident_summary(
        actors@,
        seq_from,
        seq_to,
        rule_ids(fs@),
        chained_taint,
        taint_seq,
    ));
    let inc = Incident {
        title: string_of(title.as_slice()),
        severity: sev,
        actors,
        chain,
        findings: ids,
        taints,
        seq_from,
        seq_to,
        summary: string_of(summary.as_slice()),
    };
    assert(inc@ == incident_of(tree@, fs@, tfv).unwrap());
    Some(inc)
}

/// Stable sort by severity, most severe first.
fn order_by_severity(v: Vec<Incident>) -> (out: Vec<Incident>)
    ensures
        incident_views(out@) == by_severity(incident_views(v@)),
{
    let ghost vs = incident_views(v@);
    let mut critical: Vec<Incident> = Vec::new();
    let mut high: Vec<Incident> = Vec::new();
    let mut medium: Vec<Incident> = Vec::new();
    let mut low: Vec<Incident> = Vec::new();
    let mut info: Vec<Incident> = Vec::new();
    for inc in it: v
        invariant
            vs == incident_views(it.seq()),
            incident_views(critical@) == with_severity(vs.take(it.index() as int), Severity::Critical),
            incident_views(high@) == with_severity(vs.take(it.index() as int), Severity::High),
            incident_views(medium@) == with_severity(vs.take(it.index() as int), Severity::Medium),
            incident_views(low@) == with_severity(vs.take(it.index() as int), Severity::Low),
            incident_views(info@) == with_severity(vs.take(it.index() as int), Severity::Info),
    {
        let ghost k = it.index() as int;
        proof {
            assert(vs.take(k + 1).drop_last() =~= vs.take(k));
            assert(vs.take(k + 1).last() == inc@);
        }
        let ghost c0 = incident_views(critical@);
        let ghost h0 = incident_views(high@);
        let ghost m0 = incident_views(medium@);
        let ghost l0 = incident_views(low@);
        let ghost i0 = incident_views(info@);
        match inc.severity {
            Severity::Critical => {
                critical.push(inc);
                assert(incident_views(critical@) =~= c0.push(inc@));
            },
            Severity::High => {
                high.push(inc);
                assert(incident_views(high@) =~= h0.push(inc@));
            },
            Severity::Medium => {
                medium.push(inc);
                assert(incident_views(medium@) =~= m0.push(inc@));
            },
            Severity::Low => {
                low.push(inc);
                assert(incident_views(low@) =~= l0.push(inc@));
            },
            Severity::Info => {
                info.push(inc);
                assert(incident_views(info@) =~= i0.push(inc@));
            },
        }
    }
    assert(vs.take(vs.len() as int) =~= vs);
    let ghost c = incident_views(critical@);
    let ghost h = incident_views(high@);
    let ghost m = incident_views(medium@);
    let ghost l = incident_views(low@);
    let ghost i = incident_views(info@);
    critical.append(&mut high);
    critical.append(&mut medium);
    critical.append(&mut low);
    critical.append(&mut info);
    assert(incident_views(critical@) =~= c + h + m + l + i);
    critical
}

/// Group findings by process ancestry and fuse with taint flows.
///
/// Findings are bucketed by the root of their process chain; flows by the
/// root of their sink process's chain. Each root (in increasing order)
/// gives one incident unless it is a lone Info/Low finding without taint.
/// The incidents are then stably sorted, most severe first.
pub fn correlate(events: &[Event], tree: &ProcTree, findings: &[Finding], flows: &[TaintFlow]) -> (out: Vec<Incident>)
    ensures
        incident_views(out@) == correlation(tree@, findings@, flow_views(flows@)),
{
    // bucket findings by their highest ancestor observed in telemetry
    let mut froots: Vec<u32> = Vec::new();
    let mut i: usize = 0;
    while i < findings.len()
        invariant
            i <= findings@.len(),
            froots@.len() == i,
            forall|j: int| 0 <= j < i ==> froots@[j] == root_of(tree@, #[trigger] findings@[j].pid),
        decreases findings.len() - i,
    {
        froots.push(chain_root(tree, findings[i].pid));
        i = i + 1;
    }
    // map taint flows to their sink pid chain root as well
    let mut troots: Vec<u32> = Vec::new();
    let mut j: usize = 0;
    while j < flows.len()
        invariant
            j <= flows@.len(),
            troots@.len() == j,
            forall|k: int| 0 <= k < j ==> troots@[k] == root_of(tree@, #[trigger] flows@[k].sink_pid),
        decreases flows.len() - j,
    {
        troots.push(chain_root(tree, flows[j].sink_pid));
        j = j + 1;
    }
    let roots = sorted_roots(tree, findings, &froots);
    let ghost fl = flow_views(flows@);
    let mut incidents: Vec<Incident> = Vec::new();
    let mut k: usize = 0;
    while k < roots.len()
        invariant
            froots@.len() == findings@.len(),
            forall|j: int| 0 <= j < froots@.len() ==> froots@[j] == root_of(tree@, #[trigger] findings@[j].pid),
            troots@.len() == flows@.len(),
            forall|j: int| 0 <= j < troots@.len() ==> troots@[j] == root_of(tree@, #[trigger] flows@[j].sink_pid),
            fl == flow_views(flows@),
            roots@ == ascending(finding_roots(tree@, findings@)),
            strictly_increasing(roots@),
            roots@.to_set() == finding_roots(tree@, findings@),
            k <= roots@.len(),
            incident_views(incidents@) == incidents_of_roots(tree@, findings@, fl, roots@.take(k as int)),
        decreases roots.len() - k,
    {
        let r = roots[k];
        let fs = findings_rooted_at(tree, findings, &froots, r);
        let tf = flows_rooted_at(tree, flows, &troots, r);
        proof {
            assert(roots@.take(k + 1).drop_last() =~= roots@.take(k as int));
            assert(roots@.take(k + 1).last() == r);
            assert(roots@.to_set().contains(r));
            lemma_bucket_nonempty(tree@, findings@, r);
        }
        let ghost before = incident_views(incidents@);
        match make_incident(tree, &fs, &tf) {
            Some(inc) => {
                incidents.push(inc);
                assert(incident_views(incidents@) =~= before.push(inc@));
            },
            None => {},
        }
        k = k + 1;
    }
    assert(roots@.take(roots@.len() as int) =~= roots@);
    order_by_severity(incidents)
}

/// A root of some finding has a non-empty bucket.
pub proof fn lemma_bucket_nonempty(t: TreeView, fs: Seq<Finding>, r: u32)
    requires
        finding_roots(t, fs).contains(r),
    ensures
        bucket(t, fs, r).len() > 0,
    decreases fs.len(),
{
    let i = choose|i: int| 0 <= i < fs.len() && root_of(t, #[trigger] fs[i].pid) == r;
    if root_of(t, fs.last().pid) != r {
        assert(i < fs.len() - 1);
        assert(fs.drop_last()[i] == fs[i]);
        assert(finding_roots(t, fs.drop_last()).contains(r));
        lemma_bucket_nonempty(t, fs.drop_last(), r);
    }
}


/// The incidents of `s` at or above severity `min`, in order.
pub open spec fn at_least(s: Seq<IncidentView>, min: Severity) -> Seq<IncidentView>
    decreases s.len(),
{
    if s.len() == 0 {
        s
    } else {
        let prev = at_least(s.drop_last(), min);
        if rank(s.last().severity) >= rank(min) {
            prev.push(s.last())
        } else {
            prev
        }
    }
}

/// Keeps only the incidents at or above severity `min` (the report's
/// minimum-severity filter), in order.
pub fn keep_at_least(incidents: Vec<Incident>, min: Severity) -> (out: Vec<Incident>)
    ensures
        incident_views(out@) == at_least(incident_views(incidents@), min),
{
    let ghost vs = incident_views(incidents@);
    let floor = severity_rank(min);
    let mut out: Vec<Incident> = Vec::new();
    for inc in it: incidents
        invariant
            floor as int == rank(min),
            vs == incident_views(it.seq()),
            incident_views(out@) == at_least(vs.take(it.index() as int), min),
    {
        let ghost k = it.index() as int;
        proof {
            assert(vs.take(k + 1).drop_last() =~= vs.take(k));
            assert(vs.take(k + 1).last() == inc@);
        }
        let ghost before = incident_views(out@);
        if severity_rank(inc.severity) >= floor {
            out.push(inc);
            assert(incident_views(out@) =~= before.push(inc@));
        }
    }
    assert(vs.take(vs.len() as int) =~= vs);
    out
}


// ------------------------------------------------------------------------
// Laws
// ------------------------------------------------------------------------

proof fn lemma_with_severity(s: Seq<IncidentView>, sev: Severity)
    ensures
        forall|i: int|
            0 <= i < with_severity(s, sev).len() ==> (#[trigger] with_severity(s, sev)[i]).severity
                == sev && s.contains(with_severity(s, sev)[i]),
    decreases s.len(),
{
    if s.len() > 0 {
        lemma_with_severity(s.drop_last(), sev);
        let prev = with_severity(s.drop_last(), sev);
        let w = with_severity(s, sev);
        assert forall|i: int| 0 <= i < w.len() implies (#[trigger] w[i]).severity == sev && s.contains(w[i]) by {
            if i < prev.len() {
                assert(w[i] == prev[i]);
                let k = choose|k: int| 0 <= k < s.drop_last().len() && s.drop_last()[k] == prev[i];
                assert(s[k] == prev[i]);
            } else {
                assert(w[i] == s.last());
                assert(s[s.len() - 1] == s.last());
            }
        }
    }
}

/// Ordering law: the incidents come most severe first.
pub proof fn law_most_severe_first(t: TreeView, fs: Seq<Finding>, fl: Seq<FlowView>)
    ensures
        forall|i: int, j: int|
            0 <= i < j < correlation(t, fs, fl).len() ==> rank(
                (#[trigger] correlation(t, fs, fl)[i]).severity,
            ) >= rank((#[trigger] correlation(t, fs, fl)[j]).severity),
{
    let s = incidents_of_roots(t, fs, fl, ascending(finding_roots(t, fs)));
    let c = with_severity(s, Severity::Critical);
    let h = with_severity(s, Severity::High);
    let m = with_severity(s, Severity::Medium);
    let l = with_severity(s, Severity::Low);
    let n = with_severity(s, Severity::Info);
    lemma_with_severity(s, Severity::Critical);
    lemma_with_severity(s, Severity::High);
    lemma_with_severity(s, Severity::Medium);
    lemma_with_severity(s, Severity::Low);
    lemma_with_severity(s, Severity::Info);
    let out = correlation(t, fs, fl);
    assert(out == c + h + m + l + n);
    assert forall|k: int| 0 <= k < out.len() implies rank((#[trigger] out[k]).severity) == if k
        < c.len() {
        4int
    } else if k < c.len() + h.len() {
        3int
    } else if k < c.len() + h.len() + m.len() {
        2int
    } else if k < c.len() + h.len() + m.len() + l.len() {
        1int
    } else {
        0int
    } by {
        if k < c.len() {
            assert(out[k] == c[k]);
        } else if k < c.len() + h.len() {
            assert(out[k] == h[k - c.len()]);
        } else if k < c.len() + h.len() + m.len() {
            assert(out[k] == m[k - c.len() - h.len()]);
        } else if k < c.len() + h.len() + m.len() + l.len() {
            assert(out[k] == l[k - c.len() - h.len() - m.len()]);
        } else {
            assert(out[k] == n[k - c.len() - h.len() - m.len() - l.len()]);
        }
    }
}

/// The greatest severity of a non-empty bucket is at least that of each of
/// its findings, and is the severity of one of them.
pub proof fn lemma_max_severity(fs: Seq<Finding>)
    ensures
        forall|i: int| 0 <= i < fs.len() ==> rank(max_severity(fs)) >= rank(#[trigger] fs[i].severity),
        fs.len() > 0 ==> exists|i: int| 0 <= i < fs.len() && max_severity(fs) == #[trigger] fs[i].severity,
    decreases fs.len(),
{
    if fs.len() > 0 {
        lemma_max_severity(fs.drop_last());
        assert forall|i: int| 0 <= i < fs.len() implies rank(max_severity(fs)) >= rank(#[trigger] fs[i].severity) by {
            if i < fs.len() - 1 {
                assert(fs.drop_last()[i] == fs[i]);
            }
        }
        if rank(max_severity(fs.drop_last())) >= rank(fs.last().severity) && fs.len() > 1 {
            let i = choose|i: int| 0 <= i < fs.drop_last().len() && max_severity(fs.drop_last()) == #[trigger] fs.drop_last()[i].severity;
            assert(fs[i] == fs.drop_last()[i]);
        } else if rank(max_severity(fs.drop_last())) >= rank(fs.last().severity) {
            assert(fs.len() == 1);
            assert(fs.last().severity == Severity::Info || rank(fs.last().severity) == 0);
            assert(max_severity(fs) == fs[0].severity);
        } else {
            assert(max_severity(fs) == fs[fs.len() - 1].severity);
        }
    }
}

/// Severity law: an incident's severity is the greatest severity of its
/// findings, raised one level when several findings share the chain and
/// one more when taint flows confirm it (never above Critical); so it is
/// never below any of its findings.
pub proof fn law_incident_severity(t: TreeView, fs: Seq<Finding>, tf: Seq<FlowView>)
    requires
        fs.len() > 0,
        incident_of(t, fs, tf) is Some,
    ensures
        ({
            let v = incident_of(t, fs, tf).unwrap();
            let bumps = (if fs.len() > 1 { 1int } else { 0int }) + (if tf.len() > 0 { 1int } else { 0int });
            &&& rank(v.severity) == if rank(max_severity(fs)) + bumps > 4 {
                4int
            } else {
                rank(max_severity(fs)) + bumps
            }
            &&& forall|i: int| 0 <= i < fs.len() ==> rank(v.severity) >= rank(#[trigger] fs[i].severity)
        }),
{
    lemma_max_severity(fs);
}

/// The flows of a bucket give taint labels exactly when there are some.
proof fn lemma_labels_nonempty(tf: Seq<FlowView>)
    ensures
        sorted_labels(flow_kinds(tf)).len() > 0 <==> tf.len() > 0,
{
    if tf.len() > 0 {
        let k = tf[0].kind;
        assert(tf.map_values(|f: FlowView| f.kind)[0] == k);
        assert(flow_kinds(tf).contains(k));
    } else {
        assert(flow_kinds(tf) =~= Set::<TaintKind>::empty());
    }
}

/// The roots of findings form a finite set.
proof fn lemma_roots_finite(t: TreeView, fs: Seq<Finding>)
    ensures
        finding_roots(t, fs).finite(),
{
    let q = fs.map_values(|f: Finding| root_of(t, f.pid));
    assert(finding_roots(t, fs) =~= q.to_set()) by {
        assert forall|r: u32| finding_roots(t, fs).contains(r) implies q.to_set().contains(r) by {
            let i = choose|i: int| 0 <= i < fs.len() && root_of(t, #[trigger] fs[i].pid) == r;
            assert(q[i] == r);
        }
        assert forall|r: u32| q.to_set().contains(r) implies finding_roots(t, fs).contains(r) by {
            let i = choose|i: int| 0 <= i < q.len() && q[i] == r;
            assert(root_of(t, fs[i].pid) == r);
        }
    }
    vstd::seq_lib::seq_to_set_is_finite(q);
}

/// Every incident of the roots `rs` is the incident of one root's bucket.
proof fn lemma_incidents_from_roots(t: TreeView, fs: Seq<Finding>, fl: Seq<FlowView>, rs: Seq<u32>)
    ensures
        forall|i: int|
            #![trigger incidents_of_roots(t, fs, fl, rs)[i]]
            0 <= i < incidents_of_roots(t, fs, fl, rs).len() ==> exists|r: u32|
                #![trigger bucket(t, fs, r)]
                rs.contains(r) && incident_of(t, bucket(t, fs, r), flow_bucket(t, fl, r)) == Some(
                    incidents_of_roots(t, fs, fl, rs)[i],
                ),
    decreases rs.len(),
{
    if rs.len() > 0 {
        let d = rs.drop_last();
        lemma_incidents_from_roots(t, fs, fl, d);
        let prev = incidents_of_roots(t, fs, fl, d);
        let cur = incidents_of_roots(t, fs, fl, rs);
        assert forall|i: int| #![trigger cur[i]] 0 <= i < cur.len() implies exists|r: u32|
            #![trigger bucket(t, fs, r)]
            rs.contains(r) && incident_of(t, bucket(t, fs, r), flow_bucket(t, fl, r)) == Some(
                cur[i],
            ) by {
            if i < prev.len() {
                assert(cur[i] == prev[i]);
                let r = choose|r: u32|
                    #![trigger bucket(t, fs, r)]
                    d.contains(r) && incident_of(t, bucket(t, fs, r), flow_bucket(t, fl, r)) == Some(
                        prev[i],
                    );
                let k = choose|k: int| 0 <= k < d.len() && d[k] == r;
                assert(rs[k] == r);
                assert(rs.contains(r) && incident_of(t, bucket(t, fs, r), flow_bucket(t, fl, r))
                    == Some(cur[i]));
            } else {
                let r = rs.last();
                assert(rs[rs.len() - 1] == r);
                assert(rs.contains(r) && incident_of(t, bucket(t, fs, r), flow_bucket(t, fl, r))
                    == Some(cur[i]));
            }
        }
    }
}

/// Noise law: a lone Info or Low finding without taint never becomes an
/// incident; every incident has several findings, or taint confirmation,
/// or a severity of at least Medium.
pub proof fn law_noise_dropped(t: TreeView, fs: Seq<Finding>, fl: Seq<FlowView>)
    ensures
        forall|i: int|
            0 <= i < correlation(t, fs, fl).len() ==> ({
                let v = #[trigger] correlation(t, fs, fl)[i];
                v.findings.len() > 1 || v.taints.len() > 0 || rank(v.severity) >= 2
            }),
{
    lemma_roots_finite(t, fs);
    let roots = finding_roots(t, fs);
    crate::sorted::lemma_ascending_exists(roots);
    let rs = ascending(roots);
    let s = incidents_of_roots(t, fs, fl, rs);
    lemma_incidents_from_roots(t, fs, fl, rs);
    lemma_with_severity(s, Severity::Critical);
    lemma_with_severity(s, Severity::High);
    lemma_with_severity(s, Severity::Medium);
    lemma_with_severity(s, Severity::Low);
    lemma_with_severity(s, Severity::Info);
    let out = correlation(t, fs, fl);
    assert forall|i: int| 0 <= i < out.len() implies ({
        let v = #[trigger] out[i];
        v.findings.len() > 1 || v.taints.len() > 0 || rank(v.severity) >= 2
    }) by {
        let v = out[i];
        assert(s.contains(v)) by {
            let c = with_severity(s, Severity::Critical);
            let h = with_severity(s, Severity::High);
            let m = with_severity(s, Severity::Medium);
            let l = with_severity(s, Severity::Low);
            let n = with_severity(s, Severity::Info);
            if i < c.len() {
                assert(out[i] == c[i]);
            } else if i < c.len() + h.len() {
                assert(out[i] == h[i - c.len()]);
            } else if i < c.len() + h.len() + m.len() {
                assert(out[i] == m[i - c.len() - h.len()]);
            } else if i < c.len() + h.len() + m.len() + l.len() {
                assert(out[i] == l[i - c.len() - h.len() - m.len()]);
            } else {
                assert(out[i] == n[i - c.len() - h.len() - m.len() - l.len()]);
            }
        }
        let k = choose|k: int| 0 <= k < s.len() && s[k] == v;
        let r = choose|r: u32|
            #![trigger bucket(t, fs, r)]
            rs.contains(r) && incident_of(t, bucket(t, fs, r), flow_bucket(t, fl, r)) == Some(s[k]);
        assert(rs.to_set().contains(r));
        lemma_bucket_nonempty(t, fs, r);
        let b = bucket(t, fs, r);
        let tf = flow_bucket(t, fl, r);
        lemma_labels_nonempty(tf);
        lemma_max_severity(b);
        assert(v.findings.len() == b.len());
        if b.len() <= 1 && tf.len() == 0 {
            assert(rank(b[0].severity) >= 2);
            assert(rank(v.severity) >= rank(b[0].severity));
        }
    }
}

/// Incidents are born from findings: without findings there is none, no
/// matter what flows there are.
pub proof fn law_no_findings_no_incidents(t: TreeView, fl: Seq<FlowView>)
    ensures
        correlation(t, Seq::<Finding>::empty(), fl) == Seq::<IncidentView>::empty(),
{
    let fs = Seq::<Finding>::empty();
    lemma_roots_finite(t, fs);
    assert(finding_roots(t, fs) =~= Set::<u32>::empty());
    crate::sorted::lemma_ascending_exists(finding_roots(t, fs));
    let rs = ascending(finding_roots(t, fs));
    if rs.len() > 0 {
        assert(rs.to_set().contains(rs[0]));
    }
    assert(rs.len() == 0);
    let s = incidents_of_roots(t, fs, fl, rs);
    assert(s.len() == 0);
    assert(correlation(t, fs, fl) =~= Seq::<IncidentView>::empty());
}

/// An incident in `s` stays in `s` sorted by severity.
proof fn lemma_with_severity_keeps(s: Seq<IncidentView>, v: IncidentView)
    requires
        s.contains(v),
    ensures
        with_severity(s, v.severity).contains(v),
    decreases s.len(),
{
    let d = s.drop_last();
    let w = with_severity(s, v.severity);
    if s.last() == v {
        assert(w[w.len() - 1] == v);
    } else {
        let k = choose|k: int| 0 <= k < s.len() && s[k] == v;
        assert(k < d.len());
        assert(d[k] == v);
        lemma_with_severity_keeps(d, v);
        let wd = with_severity(d, v.severity);
        let j = choose|j: int| 0 <= j < wd.len() && wd[j] == v;
        assert(w[j] == v);
    }
}

proof fn lemma_concat_has(x: Seq<IncidentView>, y: Seq<IncidentView>, v: IncidentView)
    requires
        x.contains(v) || y.contains(v),
    ensures
        (x + y).contains(v),
{
    if x.contains(v) {
        let i = choose|i: int| 0 <= i < x.len() && x[i] == v;
        assert((x + y)[i] == v);
    } else {
        let j = choose|j: int| 0 <= j < y.len() && y[j] == v;
        assert((x + y)[x.len() + j] == v);
    }
}

/// Sorting by severity keeps every incident.
proof fn lemma_by_severity_keeps(s: Seq<IncidentView>, v: IncidentView)
    requires
        s.contains(v),
    ensures
        by_severity(s).contains(v),
{
    lemma_with_severity_keeps(s, v);
    let c = with_severity(s, Severity::Critical);
    let h = with_severity(s, Severity::High);
    let m = with_severity(s, Severity::Medium);
    let l = with_severity(s, Severity::Low);
    let n = with_severity(s, Severity::Info);
    match v.severity {
        Severity::Critical => {
            lemma_concat_has(c, h, v);
            lemma_concat_has(c + h, m, v);
            lemma_concat_has(c + h + m, l, v);
            lemma_concat_has(c + h + m + l, n, v);
        },
        Severity::High => {
            lemma_concat_has(c, h, v);
            lemma_concat_has(c + h, m, v);
            lemma_concat_has(c + h + m, l, v);
            lemma_concat_has(c + h + m + l, n, v);
        },
        Severity::Medium => {
            lemma_concat_has(c + h, m, v);
            lemma_concat_has(c + h + m, l, v);
            lemma_concat_has(c + h + m + l, n, v);
        },
        Severity::Low => {
            lemma_concat_has(c + h + m, l, v);
            lemma_concat_has(c + h + m + l, n, v);
        },
        Severity::Info => {
            lemma_concat_has(c + h + m + l, n, v);
        },
    }
}

/// The incident of a listed root is among the incidents of the roots.
proof fn lemma_root_incident_listed(t: TreeView, fs: Seq<Finding>, fl: Seq<FlowView>, rs: Seq<u32>, r: u32)
    requires
        rs.contains(r),
        incident_of(t, bucket(t, fs, r), flow_bucket(t, fl, r)) is Some,
    ensures
        incidents_of_roots(t, fs, fl, rs).contains(
            incident_of(t, bucket(t, fs, r), flow_bucket(t, fl, r)).unwrap(),
        ),
    decreases rs.len(),
{
    let v = incident_of(t, bucket(t, fs, r), flow_bucket(t, fl, r)).unwrap();
    let d = rs.drop_last();
    let cur = incidents_of_roots(t, fs, fl, rs);
    if rs.last() == r {
        assert(cur[cur.len() - 1] == v);
    } else {
        let k = choose|k: int| 0 <= k < rs.len() && rs[k] == r;
        assert(d[k] == r);
        lemma_root_incident_listed(t, fs, fl, d, r);
        let prev = incidents_of_roots(t, fs, fl, d);
        let j = choose|j: int| 0 <= j < prev.len() && prev[j] == v;
        assert(cur[j] == v);
    }
}

/// Which roots give incidents: every chain root of the findings gives an
/// incident — holding all of that root's findings, the kinds of its flows
/// as taints, and a severity at least that of each of its findings —
/// unless it has a single finding below Medium and no taint flow shares
/// the root. In particular a lone Low finding whose process chain also saw
/// sensitive data leave is reported, with its severity raised.
pub proof fn law_confirmed_roots_kept(t: TreeView, fs: Seq<Finding>, fl: Seq<FlowView>, r: u32)
    requires
        finding_roots(t, fs).contains(r),
        flow_bucket(t, fl, r).len() > 0 || bucket(t, fs, r).len() > 1 || rank(
            bucket(t, fs, r)[0].severity,
        ) >= 2,
    ensures
        incident_of(t, bucket(t, fs, r), flow_bucket(t, fl, r)) is Some,
        correlation(t, fs, fl).contains(incident_of(t, bucket(t, fs, r), flow_bucket(t, fl, r)).unwrap()),
        ({
            let v = incident_of(t, bucket(t, fs, r), flow_bucket(t, fl, r)).unwrap();
            &&& v.findings.len() == bucket(t, fs, r).len()
            &&& (flow_bucket(t, fl, r).len() > 0 <==> v.taints.len() > 0)
            &&& forall|i: int|
                0 <= i < bucket(t, fs, r).len() ==> rank(v.severity) >= rank(
                    #[trigger] bucket(t, fs, r)[i].severity,
                )
            &&& flow_bucket(t, fl, r).len() > 0 && bucket(t, fs, r).len() == 1 ==> rank(v.severity)
                == if rank(bucket(t, fs, r)[0].severity) == 4 {
                4
            } else {
                rank(bucket(t, fs, r)[0].severity) + 1
            }
        }),
{
    lemma_bucket_nonempty(t, fs, r);
    let b = bucket(t, fs, r);
    let tf = flow_bucket(t, fl, r);
    assert(incident_of(t, b, tf) is Some);
    law_incident_severity(t, b, tf);
    lemma_labels_nonempty(tf);
    lemma_max_severity(b);
    lemma_roots_finite(t, fs);
    let roots = finding_roots(t, fs);
    crate::sorted::lemma_ascending_exists(roots);
    let rs = ascending(roots);
    assert(rs.to_set().contains(r));
    assert(rs.contains(r));
    lemma_root_incident_listed(t, fs, fl, rs, r);
    lemma_by_severity_keeps(incidents_of_roots(t, fs, fl, rs), incident_of(t, b, tf).unwrap());
}

} // verus!
