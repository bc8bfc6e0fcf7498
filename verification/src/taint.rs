//! Data-flow taint tracking across processes and artifacts.
//!
//! LabTrace's differentiator: rules alone fire on single events; taint analysis
//! connects them. Sensitive data (credentials, keys, SSH sockets, browser
//! cookies, cloud tokens) is marked at source; every file write, pipe, exec
//! argument and network connection propagates it. A finding is born when taint
//! reaches a sink (the internet, a new binary, an archive, a shell).
use std::collections::BTreeMap;
use vstd::prelude::*;

use crate::event::Event;
use crate::proctree::{chain_text, ProcTree, TreeView};
use crate::text::{
    ascii_lower, ascii_upper, chars_of, contains, ends_with, eq_chars, has_char, has_sub, has_suffix,
    nonempty_only, pieces, same_text, split, string_of, to_lower, words, Sep,
};

verus! {

broadcast use {vstd::laws_cmp::group_laws_cmp, vstd::std_specs::btree::group_btree_axioms};

/// What kind of sensitive source got tainted.
#[derive(Debug, Clone, Copy, PartialEq, Eq, PartialOrd, Ord, Structural)]
pub enum TaintKind {
    Credentials,
    CryptoKey,
    SessionToken,
    CloudCredentials,
    DatabaseDump,
    PersonalData,
}

/// The position of a kind in the declared order of `TaintKind`.
pub open spec fn kind_rank(k: TaintKind) -> int {
    match k {
        TaintKind::Credentials => 0,
        TaintKind::CryptoKey => 1,
        TaintKind::SessionToken => 2,
        TaintKind::CloudCredentials => 3,
        TaintKind::DatabaseDump => 4,
        TaintKind::PersonalData => 5,
    }
}

/// The name of a taint kind.
pub open spec fn kind_label(k: TaintKind) -> Seq<char> {
    match k {
        TaintKind::Credentials => "credentials"@,
        TaintKind::CryptoKey => "crypto-key"@,
        TaintKind::SessionToken => "session-token"@,
        TaintKind::CloudCredentials => "cloud-credentials"@,
        TaintKind::DatabaseDump => "database-dump"@,
        TaintKind::PersonalData => "personal-data"@,
    }
}

impl TaintKind {
    pub fn label(&self) -> (s: &'static str)
        ensures
            s@ == kind_label(*self),
    {
        match self {
            TaintKind::Credentials => "credentials",
            TaintKind::CryptoKey => "crypto-key",
            TaintKind::SessionToken => "session-token",
            TaintKind::CloudCredentials => "cloud-credentials",
            TaintKind::DatabaseDump => "database-dump",
            TaintKind::PersonalData => "personal-data",
        }
    }
}

/// A tainted entity: process, file or connection.
#[derive(Debug, Clone, PartialEq, Eq, PartialOrd, Ord)]
pub struct TaintId {
    pub kind: TaintKind,
    pub origin_pid: u32,
    /// File path or "net:<ip:port>" — what carries the taint.
    pub carrier: String,
}

/// A mark: kind, origin pid and carrier.
pub type Mark = (TaintKind, u32, Seq<char>);

pub open spec fn mark_of(t: TaintId) -> Mark {
    (t.kind, t.origin_pid, t.carrier@)
}

/// A set of taint kinds.
#[derive(Debug, Clone, Copy)]
pub struct KindSet {
    pub credentials: bool,
    pub crypto_key: bool,
    pub session_token: bool,
    pub cloud_credentials: bool,
    pub database_dump: bool,
    pub personal_data: bool,
}

pub open spec fn kind_flag(s: KindSet, k: TaintKind) -> bool {
    match k {
        TaintKind::Credentials => s.credentials,
        TaintKind::CryptoKey => s.crypto_key,
        TaintKind::SessionToken => s.session_token,
        TaintKind::CloudCredentials => s.cloud_credentials,
        TaintKind::DatabaseDump => s.database_dump,
        TaintKind::PersonalData => s.personal_data,
    }
}

impl View for KindSet {
    type V = Set<TaintKind>;

    open spec fn view(&self) -> Set<TaintKind> {
        Set::new(|k: TaintKind| kind_flag(*self, k))
    }
}

/// The kinds of `s` in the order of `TaintKind` (the order in which an
/// ordered set of kinds is walked).
pub open spec fn in_kind_order(s: Set<TaintKind>) -> Seq<TaintKind> {
    (if s.contains(TaintKind::Credentials) {
        seq![TaintKind::Credentials]
    } else {
        Seq::empty()
    }) + (if s.contains(TaintKind::CryptoKey) {
        seq![TaintKind::CryptoKey]
    } else {
        Seq::empty()
    }) + (if s.contains(TaintKind::SessionToken) {
        seq![TaintKind::SessionToken]
    } else {
        Seq::empty()
    }) + (if s.contains(TaintKind::CloudCredentials) {
        seq![TaintKind::CloudCredentials]
    } else {
        Seq::empty()
    }) + (if s.contains(TaintKind::DatabaseDump) {
        seq![TaintKind::DatabaseDump]
    } else {
        Seq::empty()
    }) + (if s.contains(TaintKind::PersonalData) {
        seq![TaintKind::PersonalData]
    } else {
        Seq::empty()
    })
}

impl KindSet {
    pub fn empty() -> (s: KindSet)
        ensures
            s@ == Set::<TaintKind>::empty(),
    {
        let s = KindSet {
            credentials: false,
            crypto_key: false,
            session_token: false,
            cloud_credentials: false,
            database_dump: false,
            personal_data: false,
        };
        assert(s@ =~= Set::<TaintKind>::empty());
        s
    }

    pub fn contains(&self, k: TaintKind) -> (r: bool)
        ensures
            r == self@.contains(k),
    {
        match k {
            TaintKind::Credentials => self.credentials,
            TaintKind::CryptoKey => self.crypto_key,
            TaintKind::SessionToken => self.session_token,
            TaintKind::CloudCredentials => self.cloud_credentials,
            TaintKind::DatabaseDump => self.database_dump,
            TaintKind::PersonalData => self.personal_data,
        }
    }

    pub fn insert(&mut self, k: TaintKind)
        ensures
            final(self)@ == old(self)@.insert(k),
    {
        match k {
            TaintKind::Credentials => self.credentials = true,
            TaintKind::CryptoKey => self.crypto_key = true,
            TaintKind::SessionToken => self.session_token = true,
            TaintKind::CloudCredentials => self.cloud_credentials = true,
            TaintKind::DatabaseDump => self.database_dump = true,
            TaintKind::PersonalData => self.personal_data = true,
        }
        assert(self@ =~= old(self)@.insert(k));
    }

    pub fn union_with(&mut self, other: &KindSet)
        ensures
            final(self)@ == old(self)@.union(other@),
    {
        self.credentials = self.credentials || other.credentials;
        self.crypto_key = self.crypto_key || other.crypto_key;
        self.session_token = self.session_token || other.session_token;
        self.cloud_credentials = self.cloud_credentials || other.cloud_credentials;
        self.database_dump = self.database_dump || other.database_dump;
        self.personal_data = self.personal_data || other.personal_data;
        assert(self@ =~= old(self)@.union(other@));
    }

    pub fn is_empty(&self) -> (r: bool)
        ensures
            r == (self@ == Set::<TaintKind>::empty()),
    {
        let r = !(self.credentials || self.crypto_key || self.session_token
            || self.cloud_credentials || self.database_dump || self.personal_data);
        if !r {
            if self.credentials {
                assert(self@.contains(TaintKind::Credentials));
            } else if self.crypto_key {
                assert(self@.contains(TaintKind::CryptoKey));
            } else if self.session_token {
                assert(self@.contains(TaintKind::SessionToken));
            } else if self.cloud_credentials {
                assert(self@.contains(TaintKind::CloudCredentials));
            } else if self.database_dump {
                assert(self@.contains(TaintKind::DatabaseDump));
            } else {
                assert(self@.contains(TaintKind::PersonalData));
            }
        } else {
            assert(self@ =~= Set::<TaintKind>::empty());
        }
        r
    }

    /// The kinds of the set, in kind order.
    pub fn kinds(&self) -> (v: Vec<TaintKind>)
        ensures
            v@ == in_kind_order(self@),
    {
        let mut v: Vec<TaintKind> = Vec::new();
        if self.credentials {
            v.push(TaintKind::Credentials);
        }
        if self.crypto_key {
            v.push(TaintKind::CryptoKey);
        }
        if self.session_token {
            v.push(TaintKind::SessionToken);
        }
        if self.cloud_credentials {
            v.push(TaintKind::CloudCredentials);
        }
        if self.database_dump {
            v.push(TaintKind::DatabaseDump);
        }
        if self.personal_data {
            v.push(TaintKind::PersonalData);
        }
        assert(v@ =~= in_kind_order(self@));
        v
    }
}

#[derive(Debug)]
pub struct TaintState {
    /// Tainted carriers (files, sockets, processes by cmdline marker); no
    /// mark occurs twice.
    pub tainted: Vec<TaintId>,
    /// Which pids currently hold taint (can propagate further).
    pub tainted_pids: BTreeMap<u32, KindSet>,
}

/// What the taint tracker knows: the marks laid so far, and the kinds of
/// taint each process holds.
pub struct TaintModel {
    pub tainted: Set<Mark>,
    pub held: Map<u32, Set<TaintKind>>,
}

impl TaintState {
    pub open spec fn model(&self) -> TaintModel {
        TaintModel {
            tainted: self.tainted@.map_values(|t: TaintId| mark_of(t)).to_set(),
            held: self.tainted_pids@.map_values(|s: KindSet| s@),
        }
    }

    /// No mark is recorded twice.
    pub open spec fn wf(&self) -> bool {
        self.tainted@.map_values(|t: TaintId| mark_of(t)).no_duplicates()
    }
}

/// The state before any event.
pub open spec fn initial_model() -> TaintModel {
    TaintModel { tainted: Set::empty(), held: Map::empty() }
}

// ------------------------------------------------------------------------
// Sources and sinks
// ------------------------------------------------------------------------

/// One kind if `cond` holds, none otherwise.
pub open spec fn kind_if(cond: bool, k: TaintKind) -> Seq<TaintKind> {
    if cond {
        seq![k]
    } else {
        Seq::empty()
    }
}

/// Source rule: SSH/TLS private key material (`p` is lower-cased).
#[verifier::opaque]
pub open spec fn key_material(p: Seq<char>) -> bool {
    has_sub(p, "/id_rsa"@) || has_sub(p, "/id_ed25519"@) || has_suffix(p, ".pem"@) || has_sub(
        p,
        ".ssh/authorized_keys"@,
    )
}

/// Source rule: SSH control sockets and agents.
#[verifier::opaque]
pub open spec fn agent_socket(p: Seq<char>) -> bool {
    has_sub(p, "/.ssh/control"@) || has_sub(p, "/ssh-agent"@) || has_suffix(p, ".gnupg"@)
}

/// Source rule: cloud credential stores.
#[verifier::opaque]
pub open spec fn cloud_config(p: Seq<char>) -> bool {
    has_sub(p, ".aws/credentials"@) || has_sub(p, ".config/gcloud"@) || has_sub(p, ".azure/"@)
        || has_sub(p, ".kube/config"@)
}

/// Source rule: key stores.
#[verifier::opaque]
pub open spec fn key_store(p: Seq<char>) -> bool {
    has_suffix(p, ".kdbx"@) || has_sub(p, ".gnupg/"@) || has_sub(p, "/keystore"@) || has_suffix(
        p,
        ".p12"@,
    ) || has_suffix(p, ".pfx"@)
}

/// Source rule: `.env` files (outside `/proc/`).
#[verifier::opaque]
pub open spec fn dotenv(p: Seq<char>) -> bool {
    has_sub(p, ".env"@) && !has_sub(p, "/proc/"@)
}

/// Source rule: browser cookie and login stores.
#[verifier::opaque]
pub open spec fn browser_session(p: Seq<char>) -> bool {
    has_sub(p, "cookies"@) || has_sub(p, "/login-data"@) || has_sub(p, ".mozilla/"@) || has_sub(
        p,
        ".config/google-chrome"@,
    )
}

/// Source rule: database dumps.
#[verifier::opaque]
pub open spec fn dump_file(p: Seq<char>) -> bool {
    has_suffix(p, ".sql"@) || has_sub(p, ".mysql/history"@) || (has_sub(p, "dump"@) && has_suffix(
        p,
        ".gz"@,
    ))
}

/// Source rule: customer / user records in CSV.
#[verifier::opaque]
pub open spec fn personal_records(p: Seq<char>) -> bool {
    has_sub(p, ".csv"@) && (has_sub(p, "customer"@) || has_sub(p, "user"@) || has_sub(
        p,
        "klient"@,
    ))
}

/// The kinds of sensitive data that a path holds, one entry per source rule
/// that matches (the path is compared in ASCII lower case).
pub open spec fn source_kinds(path: Seq<char>) -> Seq<TaintKind> {
    let p = ascii_lower(path);
    kind_if(key_material(p), TaintKind::Credentials) + kind_if(
        agent_socket(p),
        TaintKind::Credentials,
    ) + kind_if(cloud_config(p), TaintKind::CloudCredentials) + kind_if(
        key_store(p),
        TaintKind::CryptoKey,
    ) + kind_if(dotenv(p), TaintKind::Credentials) + kind_if(
        browser_session(p),
        TaintKind::SessionToken,
    ) + kind_if(dump_file(p), TaintKind::DatabaseDump) + kind_if(
        personal_records(p),
        TaintKind::PersonalData,
    )
}

/// A target is a network sink when it names an address with a port.
pub open spec fn network_sink(target: Seq<char>) -> bool {
    target.contains(':')
}

/// A target is an archive sink when it names an archive file.
pub open spec fn archive_sink(target: Seq<char>) -> bool {
    let t = ascii_lower(target);
    has_suffix(t, ".tar"@) || has_suffix(t, ".tar.gz"@) || has_suffix(t, ".tgz"@) || has_suffix(
        t,
        ".zip"@,
    ) || has_suffix(t, ".7z"@)
}

/// A command-line token carries taint when it looks like a path and names a
/// sensitive source.
pub open spec fn is_carrier(tok: Seq<char>) -> bool {
    tok.contains('/') && source_kinds(tok).len() > 0
}

/// The carriers among `toks`, in order.
pub open spec fn carriers_among(toks: Seq<Seq<char>>) -> Seq<Seq<char>>
    decreases toks.len(),
{
    if toks.len() == 0 {
        toks
    } else {
        let prev = carriers_among(toks.drop_last());
        if is_carrier(toks.last()) {
            prev.push(toks.last())
        } else {
            prev
        }
    }
}

/// The sensitive paths named in a command line (its words that carry
/// taint), in order.
pub open spec fn carriers(cmdline: Seq<char>) -> Seq<Seq<char>> {
    carriers_among(words(cmdline))
}

fn check_key_material(p: &[char]) -> (r: bool)
    ensures
        r == key_material(p@),
{
    reveal(key_material);
    contains(p, "/id_rsa") || contains(p, "/id_ed25519") || ends_with(p, ".pem") || contains(
        p,
        ".ssh/authorized_keys",
    )
}

fn check_agent_socket(p: &[char]) -> (r: bool)
    ensures
        r == agent_socket(p@),
{
    reveal(agent_socket);
    contains(p, "/.ssh/control") || contains(p, "/ssh-agent") || ends_with(p, ".gnupg")
}

fn check_cloud_config(p: &[char]) -> (r: bool)
    ensures
        r == cloud_config(p@),
{
    reveal(cloud_config);
    contains(p, ".aws/credentials") || contains(p, ".config/gcloud") || contains(p, ".azure/")
        || contains(p, ".kube/config")
}

fn check_key_store(p: &[char]) -> (r: bool)
    ensures
        r == key_store(p@),
{
    reveal(key_store);
    ends_with(p, ".kdbx") || contains(p, ".gnupg/") || contains(p, "/keystore") || ends_with(
        p,
        ".p12",
    ) || ends_with(p, ".pfx")
}

fn check_dotenv(p: &[char]) -> (r: bool)
    ensures
        r == dotenv(p@),
{
    reveal(dotenv);
    contains(p, ".env") && !contains(p, "/proc/")
}

fn check_browser_session(p: &[char]) -> (r: bool)
    ensures
        r == browser_session(p@),
{
    reveal(browser_session);
    contains(p, "cookies") || contains(p, "/login-data") || contains(p, ".mozilla/") || contains(
        p,
        ".config/google-chrome",
    )
}

fn check_dump_file(p: &[char]) -> (r: bool)
    ensures
        r == dump_file(p@),
{
    reveal(dump_file);
    ends_with(p, ".sql") || contains(p, ".mysql/history") || (contains(p, "dump") && ends_with(
        p,
        ".gz",
    ))
}

fn check_personal_records(p: &[char]) -> (r: bool)
    ensures
        r == personal_records(p@),
{
    reveal(personal_records);
    contains(p, ".csv") && (contains(p, "customer") || contains(p, "user") || contains(
        p,
        "klient",
    ))
}

/// Rules that mark sources of sensitive data.
pub fn source_kinds_for_path(path: &[char]) -> (out: Vec<TaintKind>)
    ensures
        out@ == source_kinds(path@),
{
    let lower = to_lower(path);
    let p = lower.as_slice();
    let ghost l = ascii_lower(path@);
    let mut out: Vec<TaintKind> = Vec::new();
    let c1 = check_key_material(p);
    let c2 = check_agent_socket(p);
    let c3 = check_cloud_config(p);
    let c4 = check_key_store(p);
    let c5 = check_dotenv(p);
    let c6 = check_browser_session(p);
    let c7 = check_dump_file(p);
    let c8 = check_personal_records(p);
    push_if(&mut out, c1, TaintKind::Credentials);
    push_if(&mut out, c2, TaintKind::Credentials);
    push_if(&mut out, c3, TaintKind::CloudCredentials);
    push_if(&mut out, c4, TaintKind::CryptoKey);
    push_if(&mut out, c5, TaintKind::Credentials);
    push_if(&mut out, c6, TaintKind::SessionToken);
    push_if(&mut out, c7, TaintKind::DatabaseDump);
    push_if(&mut out, c8, TaintKind::PersonalData);
    assert(out@ == source_kinds(path@));
    out
}

fn push_if(out: &mut Vec<TaintKind>, cond: bool, k: TaintKind)
    ensures
        final(out)@ == old(out)@ + kind_if(cond, k),
{
    if cond {
        out.push(k);
    }
    assert(out@ =~= old(out)@ + kind_if(cond, k));
}

/// Sinks: where tainted data should never end up.
fn is_network_sink(target: &[char]) -> (r: bool)
    ensures
        r == network_sink(target@),
{
    // any outbound connection is a potential exfiltration sink
    has_char(target, ':')
}

fn is_archive_sink(target: &[char]) -> (r: bool)
    ensures
        r == archive_sink(target@),
{
    let lower = to_lower(target);
    let t = lower.as_slice();
    ends_with(t, ".tar") || ends_with(t, ".tar.gz") || ends_with(t, ".tgz") || ends_with(t, ".zip")
        || ends_with(t, ".7z")
}

/// The sensitive paths named in a command line, as characters.
fn carriers_in_cmdline(cmdline: &[char]) -> (out: Vec<Vec<char>>)
    ensures
        out.deep_view() == carriers(cmdline@),
{
    let toks = split(cmdline, Sep::Space);
    let ghost ps = pieces(cmdline@, Sep::Space);
    let mut out: Vec<Vec<char>> = Vec::new();
    let mut i: usize = 0;
    while i < toks.len()
        invariant
            toks.deep_view() == ps,
            i <= ps.len(),
            out.deep_view() == carriers_among(nonempty_only(ps.take(i as int))),
        decreases toks.len() - i,
    {
        let tok = &toks[i];
        proof {
            assert(ps.take(i + 1).drop_last() =~= ps.take(i as int));
            assert(toks.deep_view()[i as int] == toks@[i as int].deep_view());
            assert(toks@[i as int].deep_view() =~= toks@[i as int]@);
            assert(ps.take(i + 1).last() == tok@);
        }
        let ghost before_words = nonempty_only(ps.take(i as int));
        proof {
            if tok@.len() > 0 {
                assert(nonempty_only(ps.take(i + 1)) == before_words.push(tok@));
                assert(before_words.push(tok@).drop_last() =~= before_words);
            } else {
                assert(nonempty_only(ps.take(i + 1)) == before_words);
            }
        }
        if tok.len() > 0 {
            let kinds = source_kinds_for_path(tok.as_slice());
            if has_char(tok.as_slice(), '/') && kinds.len() > 0 {
                let ghost before = out.deep_view();
                let copy = tok.clone();
                assert(copy.deep_view() =~= tok@);
                out.push(copy);
                assert(out.deep_view() =~= before.push(tok@));
            }
        }
        i = i + 1;
    }
    assert(ps.take(ps.len() as int) =~= ps);
    out
}

// ------------------------------------------------------------------------
// Flows
// ------------------------------------------------------------------------

#[derive(Debug, Clone)]
pub struct TaintFlow {
    pub taint: TaintId,
    /// pid where taint reached the sink
    pub sink_pid: u32,
    /// event index (seq) of the sink event
    pub sink_seq: u64,
    pub sink_kind: String,
    pub sink_target: String,
    /// rendered process chain for the report
    pub chain: String,
}

/// A flow, with its texts as characters.
pub struct FlowView {
    pub kind: TaintKind,
    pub origin_pid: u32,
    pub carrier: Seq<char>,
    pub sink_pid: u32,
    pub sink_seq: u64,
    pub sink_kind: Seq<char>,
    pub sink_target: Seq<char>,
    pub chain: Seq<char>,
}

impl View for TaintFlow {
    type V = FlowView;

    open spec fn view(&self) -> FlowView {
        FlowView {
            kind: self.taint.kind,
            origin_pid: self.taint.origin_pid,
            carrier: self.taint.carrier@,
            sink_pid: self.sink_pid,
            sink_seq: self.sink_seq,
            sink_kind: self.sink_kind@,
            sink_target: self.sink_target@,
            chain: self.chain@,
        }
    }
}

/// The flow of kind `k` reaching sink `sink` (with target `target`) at
/// event `e`: it is attributed to the acting process, with that process's
/// chain in tree `t`.
pub open spec fn flow_at(e: Event, t: TreeView, k: TaintKind, target: Seq<char>, sink: Seq<char>) -> FlowView {
    FlowView {
        kind: k,
        origin_pid: e.pid,
        carrier: Seq::empty(),
        sink_pid: e.pid,
        sink_seq: e.seq,
        sink_kind: sink,
        sink_target: target,
        chain: chain_text(t, e.pid),
    }
}

/// One flow per kind held, in kind order.
pub open spec fn flows_at(
    e: Event,
    t: TreeView,
    kinds: Set<TaintKind>,
    target: Seq<char>,
    sink: Seq<char>,
) -> Seq<FlowView> {
    in_kind_order(kinds).map_values(|k: TaintKind| flow_at(e, t, k, target, sink))
}

// ------------------------------------------------------------------------
// The propagation step
// ------------------------------------------------------------------------

/// The marks of `kinds` laid by `pid` on `carrier`.
pub open spec fn marks_for(kinds: Set<TaintKind>, pid: u32, carrier: Seq<char>) -> Set<Mark> {
    Set::new(|m: Mark| kinds.contains(m.0) && m.1 == pid && m.2 == carrier)
}

/// The kinds held by `pid` (none when it holds no taint).
pub open spec fn held_by(m: TaintModel, pid: u32) -> Set<TaintKind> {
    if m.held.contains_key(pid) {
        m.held[pid]
    } else {
        Set::empty()
    }
}

/// The kinds that marks on `carrier` carry.
pub open spec fn kinds_carried(m: TaintModel, carrier: Seq<char>) -> Set<TaintKind> {
    Set::new(|k: TaintKind| exists|o: u32| m.tainted.contains((k, o, carrier)))
}

/// The kinds that an exec with carriers `cs` in its argv picks up from
/// them: what marks on them carry, and what they hold as sources.
pub open spec fn carried_by_args(m: TaintModel, cs: Seq<Seq<char>>) -> Set<TaintKind>
    decreases cs.len(),
{
    if cs.len() == 0 {
        Set::empty()
    } else {
        carried_by_args(m, cs.drop_last()).union(kinds_carried(m, cs.last())).union(
            source_kinds(cs.last()).to_set(),
        )
    }
}

/// The marks that an exec by `pid` lays on the sources named in its argv.
pub open spec fn arg_marks(cs: Seq<Seq<char>>, pid: u32) -> Set<Mark>
    decreases cs.len(),
{
    if cs.len() == 0 {
        Set::empty()
    } else {
        arg_marks(cs.drop_last(), pid).union(marks_for(source_kinds(cs.last()).to_set(), pid, cs.last()))
    }
}

/// The taint state and the new flows after event `e` (tree `t` renders the
/// chains of flows).
///
/// - failed events change nothing;
/// - `exec`: the process inherits its parent's taint and picks up the taint
///   of sensitive paths in its argv (marking those sources);
/// - `file`: reading a sensitive source taints the reader and marks the
///   file with all the reader holds; a tainted process writing any other
///   file marks it (staging), and writing an archive is a sink;
/// - `net-connect`: a process holding taint (its own, or else its parent's)
///   that connects to an address is a sink;
/// - other events change nothing.
pub open spec fn step(m: TaintModel, e: Event, t: TreeView) -> (TaintModel, Seq<FlowView>) {
    if !e.success {
        (m, Seq::empty())
    } else if e.kind@ == "exec"@ {
        let cs = carriers(e.cmdline@);
        let kinds = held_by(m, e.ppid).union(carried_by_args(m, cs));
        (
            TaintModel {
                tainted: m.tainted.union(arg_marks(cs, e.pid)),
                held: if kinds == Set::<TaintKind>::empty() {
                    m.held
                } else {
                    m.held.insert(e.pid, kinds)
                },
            },
            Seq::empty(),
        )
    } else if e.kind@ == "file"@ {
        let path = e.target@;
        let src = source_kinds(path);
        if src.len() > 0 {
            let h = held_by(m, e.pid).union(src.to_set());
            (
                TaintModel {
                    tainted: m.tainted.union(marks_for(h, e.pid, path)),
                    held: m.held.insert(e.pid, h),
                },
                Seq::empty(),
            )
        } else if m.held.contains_key(e.pid) {
            let h = m.held[e.pid];
            (
                TaintModel { tainted: m.tainted.union(marks_for(h, e.pid, path)), held: m.held },
                if archive_sink(path) {
                    flows_at(e, t, h, path, "archive-write"@)
                } else {
                    Seq::empty()
                },
            )
        } else {
            (m, Seq::empty())
        }
    } else if e.kind@ == "net-connect"@ {
        let h = if m.held.contains_key(e.pid) {
            m.held[e.pid]
        } else {
            held_by(m, e.ppid)
        };
        (
            m,
            if h != Set::<TaintKind>::empty() && network_sink(e.target@) {
                flows_at(e, t, h, e.target@, "net-exfil"@)
            } else {
                Seq::empty()
            },
        )
    } else {
        (m, Seq::empty())
    }
}

/// The taint state after a stream, and every flow found, in order.
pub open spec fn propagate(evs: Seq<Event>, t: TreeView) -> (TaintModel, Seq<FlowView>)
    decreases evs.len(),
{
    if evs.len() == 0 {
        (initial_model(), Seq::empty())
    } else {
        let prev = propagate(evs.drop_last(), t);
        let next = step(prev.0, evs.last(), t);
        (next.0, prev.1 + next.1)
    }
}

/// The flows of a stream.
pub open spec fn taint_flows(evs: Seq<Event>, t: TreeView) -> Seq<FlowView> {
    propagate(evs, t).1
}

// ------------------------------------------------------------------------
// Executable state
// ------------------------------------------------------------------------

/// The set of kinds in `v`.
fn kindset_of(v: &Vec<TaintKind>) -> (s: KindSet)
    ensures
        s@ == v@.to_set(),
{
    let mut s = KindSet::empty();
    let mut i: usize = 0;
    while i < v.len()
        invariant
            i <= v@.len(),
            s@ == v@.take(i as int).to_set(),
        decreases v.len() - i,
    {
        s.insert(v[i]);
        assert(v@.take(i + 1).to_set() =~= v@.take(i as int).to_set().insert(v@[i as int])) by {
            assert forall|k: TaintKind| v@.take(i + 1).contains(k) implies v@.take(
                i as int,
            ).to_set().insert(v@[i as int]).contains(k) by {
                let j = choose|j: int| 0 <= j < i + 1 && #[trigger] v@.take(i + 1)[j] == k;
                if j < i {
                    assert(v@.take(i as int)[j] == k);
                }
            }
            assert forall|k: TaintKind| v@.take(i as int).contains(k) implies v@.take(
                i + 1,
            ).contains(k) by {
                let j = choose|j: int| 0 <= j < i && #[trigger] v@.take(i as int)[j] == k;
                assert(v@.take(i + 1)[j] == k);
            }
            assert(v@.take(i + 1)[i as int] == v@[i as int]);
        }
        i = i + 1;
    }
    assert(v@.take(v@.len() as int) =~= v@);
    s
}

impl Default for TaintState {
    fn default() -> (st: TaintState)
        ensures
            st.wf(),
            st.model() == initial_model(),
    {
        TaintState::new()
    }
}

impl TaintState {
    /// The state before any event.
    pub fn new() -> (st: TaintState)
        ensures
            st.wf(),
            st.model() == initial_model(),
    {
        let st = TaintState { tainted: Vec::new(), tainted_pids: BTreeMap::new() };
        assert(st.model().tainted =~= Set::<Mark>::empty());
        assert(st.model().held =~= Map::<u32, Set<TaintKind>>::empty());
        st
    }

    /// The kinds `pid` holds.
    fn held(&self, pid: u32) -> (s: KindSet)
        ensures
            s@ == held_by(self.model(), pid),
    {
        match self.tainted_pids.get(&pid) {
            Some(s) => *s,
            None => KindSet::empty(),
        }
    }

    /// Is the mark `(k, pid, carrier)` recorded?
    fn has_mark(&self, k: TaintKind, pid: u32, carrier: &[char]) -> (r: bool)
        ensures
            r == self.model().tainted.contains((k, pid, carrier@)),
    {
        let ghost marks = self.tainted@.map_values(|t: TaintId| mark_of(t));
        let mut i: usize = 0;
        while i < self.tainted.len()
            invariant
                i <= self.tainted@.len(),
                marks == self.tainted@.map_values(|t: TaintId| mark_of(t)),
                forall|j: int| 0 <= j < i ==> marks[j] != (k, pid, carrier@),
            decreases self.tainted.len() - i,
        {
            let t = &self.tainted[i];
            if t.kind == k && t.origin_pid == pid {
                let c = chars_of(t.carrier.as_str());
                if eq_chars(c.as_slice(), carrier) {
                    assert(marks[i as int] == (k, pid, carrier@));
                    return true;
                }
            }
            i = i + 1;
        }
        false
    }

    /// The kinds that marks on `carrier` carry.
    fn carried_kinds(&self, carrier: &[char]) -> (s: KindSet)
        ensures
            s@ == kinds_carried(self.model(), carrier@),
    {
        let ghost marks = self.tainted@.map_values(|t: TaintId| mark_of(t));
        let mut s = KindSet::empty();
        let mut i: usize = 0;
        while i < self.tainted.len()
            invariant
                i <= self.tainted@.len(),
                marks == self.tainted@.map_values(|t: TaintId| mark_of(t)),
                forall|k: TaintKind|
                    s@.contains(k) <==> exists|j: int|
                        0 <= j < i && (#[trigger] marks[j]).0 == k && marks[j].2 == carrier@,
            decreases self.tainted.len() - i,
        {
            let t = &self.tainted[i];
            let c = chars_of(t.carrier.as_str());
            let ghost before = s@;
            if eq_chars(c.as_slice(), carrier) {
                s.insert(t.kind);
            }
            assert forall|k: TaintKind|
                s@.contains(k) <==> exists|j: int|
                    0 <= j < i + 1 && (#[trigger] marks[j]).0 == k && marks[j].2 == carrier@ by {
                if s@.contains(k) && !before.contains(k) {
                    assert(marks[i as int].0 == k && marks[i as int].2 == carrier@);
                }
                if exists|j: int| 0 <= j < i + 1 && (#[trigger] marks[j]).0 == k && marks[j].2
                    == carrier@ {
                    let j = choose|j: int|
                        0 <= j < i + 1 && (#[trigger] marks[j]).0 == k && marks[j].2 == carrier@;
                    if j < i {
                        assert(before.contains(k));
                    }
                }
            }
            i = i + 1;
        }
        assert forall|k: TaintKind| s@.contains(k) == kinds_carried(self.model(), carrier@).contains(
            k,
        ) by {
            if s@.contains(k) {
                let j = choose|j: int|
                    0 <= j < marks.len() && (#[trigger] marks[j]).0 == k && marks[j].2 == carrier@;
                assert(marks[j] == (k, marks[j].1, carrier@));
                assert(self.model().tainted.contains((k, marks[j].1, carrier@)));
            }
            if kinds_carried(self.model(), carrier@).contains(k) {
                let o = choose|o: u32| self.model().tainted.contains((k, o, carrier@));
                let j = choose|j: int| 0 <= j < marks.len() && marks[j] == (k, o, carrier@);
                assert(marks[j].0 == k);
            }
        }
        assert(s@ =~= kinds_carried(self.model(), carrier@));
        s
    }

    /// Records the mark `(k, pid, carrier)`.
    fn add_mark(&mut self, k: TaintKind, pid: u32, carrier: &[char])
        requires
            old(self).wf(),
        ensures
            final(self).wf(),
            final(self).model().tainted == old(self).model().tainted.insert((k, pid, carrier@)),
            final(self).model().held == old(self).model().held,
    {
        if self.has_mark(k, pid, carrier) {
            assert(self.model().tainted =~= old(self).model().tainted.insert((k, pid, carrier@)));
            return;
        }
        let ghost marks = self.tainted@.map_values(|t: TaintId| mark_of(t));
        let id = TaintId { kind: k, origin_pid: pid, carrier: string_of(carrier) };
        self.tainted.push(id);
        let ghost now = self.tainted@.map_values(|t: TaintId| mark_of(t));
        assert(now =~= marks.push((k, pid, carrier@)));
        assert(now.to_set() =~= marks.to_set().insert((k, pid, carrier@))) by {
            assert forall|m: Mark| now.contains(m) implies marks.to_set().insert(
                (k, pid, carrier@),
            ).contains(m) by {
                let j = choose|j: int| 0 <= j < now.len() && now[j] == m;
                if j < marks.len() {
                    assert(marks[j] == m);
                }
            }
            assert forall|m: Mark| marks.contains(m) implies now.contains(m) by {
                let j = choose|j: int| 0 <= j < marks.len() && marks[j] == m;
                assert(now[j] == m);
            }
            assert(now[marks.len() as int] == (k, pid, carrier@));
        }
        assert(now.no_duplicates()) by {
            assert forall|a: int, b: int| 0 <= a < now.len() && 0 <= b < now.len() && a != b implies now[a]
                != now[b] by {
                if a == marks.len() as int {
                    assert(!marks.contains((k, pid, carrier@)));
                    assert(now[b] == marks[b]);
                } else if b == marks.len() as int {
                    assert(!marks.contains((k, pid, carrier@)));
                    assert(now[a] == marks[a]);
                } else {
                    assert(now[a] == marks[a]);
                    assert(now[b] == marks[b]);
                }
            }
        }
        assert(self.model().held =~= old(self).model().held);
    }

    /// Records the marks of `kinds` laid by `pid` on `carrier`.
    fn add_marks(&mut self, kinds: &KindSet, pid: u32, carrier: &[char])
        requires
            old(self).wf(),
        ensures
            final(self).wf(),
            final(self).model().tainted == old(self).model().tainted.union(
                marks_for(kinds@, pid, carrier@),
            ),
            final(self).model().held == old(self).model().held,
    {
        let ks = kinds.kinds();
        let ghost order = in_kind_order(kinds@);
        let mut i: usize = 0;
        while i < ks.len()
            invariant
                ks@ == order,
                i <= ks@.len(),
                self.wf(),
                self.model().held == old(self).model().held,
                self.model().tainted == old(self).model().tainted.union(
                    marks_upto(order, i as int, pid, carrier@),
                ),
            decreases ks.len() - i,
        {
            let ghost before = self.model().tainted;
            self.add_mark(ks[i], pid, carrier);
            proof {
                lemma_marks_upto_step(order, i as int, pid, carrier@);
                assert(self.model().tainted =~= old(self).model().tainted.union(
                    marks_upto(order, i + 1, pid, carrier@),
                ));
            }
            i = i + 1;
        }
        proof {
            assert(order.take(ks@.len() as int) =~= order);
            lemma_kind_order_members(kinds@);
            assert(marks_upto(order, ks@.len() as int, pid, carrier@) =~= marks_for(
                kinds@,
                pid,
                carrier@,
            ));
        }
    }
}

/// The marks of the first `n` kinds of `order`.
pub open spec fn marks_upto(order: Seq<TaintKind>, n: int, pid: u32, carrier: Seq<char>) -> Set<
    Mark,
> {
    Set::new(|m: Mark| order.take(n).contains(m.0) && m.1 == pid && m.2 == carrier)
}

proof fn lemma_marks_upto_step(order: Seq<TaintKind>, i: int, pid: u32, carrier: Seq<char>)
    requires
        0 <= i < order.len(),
    ensures
        marks_upto(order, i + 1, pid, carrier) == marks_upto(order, i, pid, carrier).insert(
            (order[i], pid, carrier),
        ),
{
    assert forall|k: TaintKind| order.take(i + 1).contains(k) <==> (order.take(i).contains(k) || k
        == order[i]) by {
        if order.take(i + 1).contains(k) {
            let j = choose|j: int| 0 <= j < i + 1 && #[trigger] order.take(i + 1)[j] == k;
            if j < i {
                assert(order.take(i)[j] == k);
            }
        }
        if order.take(i).contains(k) {
            let j = choose|j: int| 0 <= j < i && #[trigger] order.take(i)[j] == k;
            assert(order.take(i + 1)[j] == k);
        }
        assert(order.take(i + 1)[i] == order[i]);
    }
    assert(marks_upto(order, i + 1, pid, carrier) =~= marks_upto(order, i, pid, carrier).insert(
        (order[i], pid, carrier),
    ));
}

proof fn lemma_kind_if_contains(cond: bool, kk: TaintKind, k: TaintKind)
    ensures
        kind_if(cond, kk).contains(k) <==> cond && kk == k,
{
    if cond {
        assert(kind_if(cond, kk)[0] == kk);
    }
}

proof fn lemma_concat_contains(x: Seq<TaintKind>, y: Seq<TaintKind>, k: TaintKind)
    ensures
        (x + y).contains(k) <==> x.contains(k) || y.contains(k),
{
    let z = x + y;
    if z.contains(k) {
        let i = choose|i: int| 0 <= i < z.len() && z[i] == k;
        if i < x.len() {
            assert(x[i] == k);
        } else {
            assert(y[i - x.len()] == k);
        }
    }
    if x.contains(k) {
        let i = choose|i: int| 0 <= i < x.len() && x[i] == k;
        assert(z[i] == k);
    }
    if y.contains(k) {
        let j = choose|j: int| 0 <= j < y.len() && y[j] == k;
        assert(z[x.len() + j] == k);
    }
}

/// A kind is listed by `in_kind_order` exactly when it is in the set.
pub proof fn lemma_kind_order_members(s: Set<TaintKind>)
    ensures
        forall|k: TaintKind| #[trigger] in_kind_order(s).contains(k) <==> s.contains(k),
{
    let a = kind_if(s.contains(TaintKind::Credentials), TaintKind::Credentials);
    let b = kind_if(s.contains(TaintKind::CryptoKey), TaintKind::CryptoKey);
    let c = kind_if(s.contains(TaintKind::SessionToken), TaintKind::SessionToken);
    let d = kind_if(s.contains(TaintKind::CloudCredentials), TaintKind::CloudCredentials);
    let e = kind_if(s.contains(TaintKind::DatabaseDump), TaintKind::DatabaseDump);
    let f = kind_if(s.contains(TaintKind::PersonalData), TaintKind::PersonalData);
    assert(in_kind_order(s) == a + b + c + d + e + f);
    assert forall|k: TaintKind| #[trigger] in_kind_order(s).contains(k) <==> s.contains(k) by {
        lemma_concat_contains(a, b, k);
        lemma_concat_contains(a + b, c, k);
        lemma_concat_contains(a + b + c, d, k);
        lemma_concat_contains(a + b + c + d, e, k);
        lemma_concat_contains(a + b + c + d + e, f, k);
        lemma_kind_if_contains(s.contains(TaintKind::Credentials), TaintKind::Credentials, k);
        lemma_kind_if_contains(s.contains(TaintKind::CryptoKey), TaintKind::CryptoKey, k);
        lemma_kind_if_contains(s.contains(TaintKind::SessionToken), TaintKind::SessionToken, k);
        lemma_kind_if_contains(s.contains(TaintKind::CloudCredentials), TaintKind::CloudCredentials, k);
        lemma_kind_if_contains(s.contains(TaintKind::DatabaseDump), TaintKind::DatabaseDump, k);
        lemma_kind_if_contains(s.contains(TaintKind::PersonalData), TaintKind::PersonalData, k);
    }
}

/// The view of a list of flows.
pub open spec fn flow_views(fs: Seq<TaintFlow>) -> Seq<FlowView> {
    fs.map_values(|f: TaintFlow| f@)
}

/// The flow of kind `kind` reaching a sink at event `e`.
fn flow(e: &Event, tree: &ProcTree, kind: TaintKind, target: &String, sink_kind: &str) -> (f: TaintFlow)
    ensures
        f@ == flow_at(*e, tree@, kind, target@, sink_kind@),
{
    TaintFlow {
        taint: TaintId { kind, origin_pid: e.pid, carrier: String::new() },
        sink_pid: e.pid,
        sink_seq: e.seq,
        sink_kind: sink_kind.to_owned(),
        sink_target: target.clone(),
        chain: tree.chain_str(e.pid),
    }
}

/// Appends one flow per kind in `kinds` (in kind order) for a sink at
/// event `e`.
fn push_flows(
    flows: &mut Vec<TaintFlow>,
    e: &Event,
    tree: &ProcTree,
    kinds: &KindSet,
    target: &String,
    sink_kind: &str,
)
    ensures
        flow_views(final(flows)@) == flow_views(old(flows)@) + flows_at(
            *e,
            tree@,
            kinds@,
            target@,
            sink_kind@,
        ),
{
    let ks = kinds.kinds();
    let ghost add = flows_at(*e, tree@, kinds@, target@, sink_kind@);
    let mut i: usize = 0;
    while i < ks.len()
        invariant
            ks@ == in_kind_order(kinds@),
            add == flows_at(*e, tree@, kinds@, target@, sink_kind@),
            i <= ks@.len(),
            flow_views(flows@) == flow_views(old(flows)@) + add.take(i as int),
        decreases ks.len() - i,
    {
        let ghost before = flow_views(flows@);
        let f = flow(e, tree, ks[i], target, sink_kind);
        assert(f@ == add[i as int]);
        flows.push(f);
        assert(flow_views(flows@) =~= before.push(f@));
        assert(add.take(i + 1) =~= add.take(i as int).push(add[i as int]));
        i = i + 1;
    }
    assert(add.take(ks@.len() as int) =~= add);
}

impl TaintState {
    /// Propagates taint over event `e`, appending the flows it causes.
    fn advance(&mut self, e: &Event, tree: &ProcTree, flows: &mut Vec<TaintFlow>)
        requires
            old(self).wf(),
        ensures
            final(self).wf(),
            final(self).model() == step(old(self).model(), *e, tree@).0,
            flow_views(final(flows)@) == flow_views(old(flows)@) + step(
                old(self).model(),
                *e,
                tree@,
            ).1,
    {
        let ghost m0 = self.model();
        if !e.success {
            assert(flow_views(flows@) =~= flow_views(flows@) + Seq::<FlowView>::empty());
            return;
        }
        let kind = chars_of(e.kind.as_str());
        if same_text(kind.as_slice(), "exec") {
            let cmd = chars_of(e.cmdline.as_str());
            let cs = carriers_in_cmdline(cmd.as_slice());
            let ghost csv = cs.deep_view();
            let mut kinds = self.held(e.ppid);
            let mut i: usize = 0;
            while i < cs.len()
                invariant
                    self.model() == m0,
                    csv == cs.deep_view(),
                    i <= csv.len(),
                    kinds@ == held_by(m0, e.ppid).union(carried_by_args(m0, csv.take(i as int))),
                decreases cs.len() - i,
            {
                let c = cs[i].as_slice();
                proof {
                    assert(cs.deep_view()[i as int] == cs@[i as int].deep_view());
                    assert(cs@[i as int].deep_view() =~= cs@[i as int]@);
                    assert(csv.take(i + 1).drop_last() =~= csv.take(i as int));
                    assert(csv.take(i + 1).last() == c@);
                }
                let carried = self.carried_kinds(c);
                kinds.union_with(&carried);
                let src = kindset_of(&source_kinds_for_path(c));
                kinds.union_with(&src);
                assert(kinds@ =~= held_by(m0, e.ppid).union(carried_by_args(m0, csv.take(i + 1))));
                i = i + 1;
            }
            let mut j: usize = 0;
            while j < cs.len()
                invariant
                    csv == cs.deep_view(),
                    j <= csv.len(),
                    self.wf(),
                    self.model().held == m0.held,
                    self.model().tainted == m0.tainted.union(arg_marks(csv.take(j as int), e.pid)),
                decreases cs.len() - j,
            {
                let c = cs[j].as_slice();
                proof {
                    assert(cs.deep_view()[j as int] == cs@[j as int].deep_view());
                    assert(cs@[j as int].deep_view() =~= cs@[j as int]@);
                    assert(csv.take(j + 1).drop_last() =~= csv.take(j as int));
                    assert(csv.take(j + 1).last() == c@);
                }
                let src = kindset_of(&source_kinds_for_path(c));
                self.add_marks(&src, e.pid, c);
                assert(self.model().tainted =~= m0.tainted.union(
                    arg_marks(csv.take(j + 1), e.pid),
                ));
                j = j + 1;
            }
            assert(csv.take(csv.len() as int) =~= csv);
            assert(csv == carriers(e.cmdline@));
            if !kinds.is_empty() {
                self.tainted_pids.insert(e.pid, kinds);
                assert(self.model().held =~= m0.held.insert(e.pid, kinds@));
            }
            assert(flow_views(flows@) =~= flow_views(flows@) + Seq::<FlowView>::empty());
        } else if same_text(kind.as_slice(), "file") {
            let path = chars_of(e.target.as_str());
            let src = source_kinds_for_path(path.as_slice());
            if src.len() > 0 {
                let mut h = self.held(e.pid);
                let sk = kindset_of(&src);
                h.union_with(&sk);
                self.tainted_pids.insert(e.pid, h);
                assert(self.model().held =~= m0.held.insert(e.pid, h@));
                assert(self.model().tainted == m0.tainted);
                self.add_marks(&h, e.pid, path.as_slice());
                assert(flow_views(flows@) =~= flow_views(flows@) + Seq::<FlowView>::empty());
            } else {
                match self.tainted_pids.get(&e.pid) {
                    Some(held) => {
                        let h = *held;
                        self.add_marks(&h, e.pid, path.as_slice());
                        if is_archive_sink(path.as_slice()) {
                            push_flows(flows, e, tree, &h, &e.target, "archive-write");
                        } else {
                            assert(flow_views(flows@) =~= flow_views(flows@) + Seq::<
                                FlowView,
                            >::empty());
                        }
                    },
                    None => {
                        assert(flow_views(flows@) =~= flow_views(flows@) + Seq::<
                            FlowView,
                        >::empty());
                    },
                }
            }
        } else if same_text(kind.as_slice(), "net-connect") {
            let h = match self.tainted_pids.get(&e.pid) {
                Some(held) => *held,
                None => self.held(e.ppid),
            };
            let target = chars_of(e.target.as_str());
            if !h.is_empty() && is_network_sink(target.as_slice()) {
                push_flows(flows, e, tree, &h, &e.target, "net-exfil");
            } else {
                assert(flow_views(flows@) =~= flow_views(flows@) + Seq::<FlowView>::empty());
            }
        } else {
            assert(flow_views(flows@) =~= flow_views(flows@) + Seq::<FlowView>::empty());
        }
    }
}

/// Run taint propagation over the event stream. Returns ordered flows where
/// sensitive data reached a sink.
pub fn analyze(events: &[Event], tree: &ProcTree) -> (out: Vec<TaintFlow>)
    ensures
        flow_views(out@) == taint_flows(events@, tree@),
{
    let mut st = TaintState::new();
    let mut flows: Vec<TaintFlow> = Vec::new();
    let mut i: usize = 0;
    while i < events.len()
        invariant
            i <= events@.len(),
            st.wf(),
            st.model() == propagate(events@.take(i as int), tree@).0,
            flow_views(flows@) == propagate(events@.take(i as int), tree@).1,
        decreases events.len() - i,
    {
        proof {
            assert(events@.take(i + 1).drop_last() =~= events@.take(i as int));
        }
        st.advance(&events[i], tree, &mut flows);
        i = i + 1;
    }
    assert(events@.take(events@.len() as int) =~= events@);
    flows
}


// ------------------------------------------------------------------------
// Laws
// ------------------------------------------------------------------------

/// The successful events of a stream, in order.
pub open spec fn succeeded(evs: Seq<Event>) -> Seq<Event>
    decreases evs.len(),
{
    if evs.len() == 0 {
        evs
    } else {
        let prev = succeeded(evs.drop_last());
        if evs.last().success {
            prev.push(evs.last())
        } else {
            prev
        }
    }
}

/// Failed calls are skipped entirely: propagating over a stream gives the
/// same state and flows as propagating over its successful events alone.
pub proof fn law_failed_events_skipped(evs: Seq<Event>, t: TreeView)
    ensures
        propagate(evs, t) == propagate(succeeded(evs), t),
    decreases evs.len(),
{
    if evs.len() > 0 {
        law_failed_events_skipped(evs.drop_last(), t);
        let s = succeeded(evs.drop_last());
        if evs.last().success {
            assert(succeeded(evs).drop_last() =~= s);
        } else {
            let p = propagate(evs.drop_last(), t);
            assert(p.1 + Seq::<FlowView>::empty() =~= p.1);
        }
    }
}

/// Marks are never withdrawn: every step keeps the marks laid before it.
pub proof fn law_marks_only_grow(m: TaintModel, e: Event, t: TreeView)
    ensures
        m.tainted.subset_of(step(m, e, t).0.tainted),
{
}

/// Propagation: a successful exec inherits all of its parent's taint, and
/// a successful read of a sensitive file taints the reader with the file's
/// kinds.
pub proof fn law_taint_propagates(m: TaintModel, e: Event, t: TreeView)
    ensures
        e.success && e.kind@ == "exec"@ ==> held_by(m, e.ppid).subset_of(
            held_by(step(m, e, t).0, e.pid),
        ),
        e.success && e.kind@ == "file"@ ==> source_kinds(e.target@).to_set().subset_of(
            held_by(step(m, e, t).0, e.pid),
        ),
{
    reveal_strlit("exec");
    reveal_strlit("file");
    if e.success && e.kind@ == "file"@ {
        assert("file"@[0] != "exec"@[0]);
        assert(e.kind@ != "exec"@);
        let src = source_kinds(e.target@);
        if src.len() == 0 {
            assert(src.to_set() =~= Set::<TaintKind>::empty());
        }
    }
    if e.success && e.kind@ == "exec"@ {
        let kinds = held_by(m, e.ppid).union(carried_by_args(m, carriers(e.cmdline@)));
        if kinds == Set::<TaintKind>::empty() {
            assert(held_by(m, e.ppid) =~= Set::<TaintKind>::empty()) by {
                assert forall|k: TaintKind| !held_by(m, e.ppid).contains(k) by {
                    assert(!kinds.contains(k));
                }
            }
        }
    }
}

/// Every flow produced by one step is attributed to the acting process and
/// ends in a real sink: a connection to an address (`net-exfil`) or the
/// write of an archive (`archive-write`).
pub open spec fn flow_at_sink(f: FlowView) -> bool {
    &&& f.origin_pid == f.sink_pid
    &&& f.carrier == Seq::<char>::empty()
    &&& (f.sink_kind == "net-exfil"@ && network_sink(f.sink_target)) || (f.sink_kind
        == "archive-write"@ && archive_sink(f.sink_target))
}

proof fn lemma_step_flows_at_sinks(m: TaintModel, e: Event, t: TreeView)
    ensures
        forall|i: int| 0 <= i < step(m, e, t).1.len() ==> flow_at_sink(#[trigger] step(m, e, t).1[i]),
{
    let out = step(m, e, t).1;
    if e.success && e.kind@ != "exec"@ && e.kind@ == "file"@ {
        let path = e.target@;
        if source_kinds(path).len() == 0 && m.held.contains_key(e.pid) && archive_sink(path) {
            let h = m.held[e.pid];
            assert(out == flows_at(e, t, h, path, "archive-write"@));
            assert forall|i: int| 0 <= i < out.len() implies flow_at_sink(#[trigger] out[i]) by {
                assert(out[i] == flow_at(e, t, in_kind_order(h)[i], path, "archive-write"@));
            }
        }
    } else if e.success && e.kind@ != "exec"@ && e.kind@ != "file"@ && e.kind@ == "net-connect"@ {
        let h = if m.held.contains_key(e.pid) {
            m.held[e.pid]
        } else {
            held_by(m, e.ppid)
        };
        if h != Set::<TaintKind>::empty() && network_sink(e.target@) {
            assert(out == flows_at(e, t, h, e.target@, "net-exfil"@));
            assert forall|i: int| 0 <= i < out.len() implies flow_at_sink(#[trigger] out[i]) by {
                assert(out[i] == flow_at(e, t, in_kind_order(h)[i], e.target@, "net-exfil"@));
            }
        }
    }
}

/// Sink law: every flow found in a stream is attributed to the process at
/// the sink and ends in a real sink — an outbound connection or an archive.
pub proof fn law_flows_end_in_sinks(evs: Seq<Event>, t: TreeView)
    ensures
        forall|i: int| 0 <= i < taint_flows(evs, t).len() ==> flow_at_sink(#[trigger] taint_flows(evs, t)[i]),
    decreases evs.len(),
{
    if evs.len() > 0 {
        law_flows_end_in_sinks(evs.drop_last(), t);
        let prev = propagate(evs.drop_last(), t);
        lemma_step_flows_at_sinks(prev.0, evs.last(), t);
        let add = step(prev.0, evs.last(), t).1;
        assert forall|i: int| 0 <= i < taint_flows(evs, t).len() implies flow_at_sink(#[trigger] taint_flows(evs, t)[i]) by {
            if i < prev.1.len() {
                assert(taint_flows(evs, t)[i] == taint_flows(evs.drop_last(), t)[i]);
            } else {
                assert(taint_flows(evs, t)[i] == add[i - prev.1.len()]);
            }
        }
    }
}

/// An event touches a sensitive source: a successful read of a sensitive
/// file, or a successful exec naming one in its argv.
pub open spec fn touches_source(e: Event) -> bool {
    e.success && ((e.kind@ == "file"@ && source_kinds(e.target@).len() > 0) || (e.kind@ == "exec"@
        && carriers(e.cmdline@).len() > 0))
}

/// Clean-activity law: taint is only ever born at a sensitive source. A
/// stream in which no event touches one leaves the taint state empty and
/// produces no flow.
pub proof fn law_no_source_no_flow(evs: Seq<Event>, t: TreeView)
    requires
        forall|i: int| 0 <= i < evs.len() ==> !touches_source(#[trigger] evs[i]),
    ensures
        propagate(evs, t).0 == initial_model(),
        taint_flows(evs, t) == Seq::<FlowView>::empty(),
    decreases evs.len(),
{
    if evs.len() > 0 {
        let d = evs.drop_last();
        assert forall|i: int| 0 <= i < d.len() implies !touches_source(#[trigger] d[i]) by {
            assert(d[i] == evs[i]);
        }
        law_no_source_no_flow(d, t);
        let e = evs.last();
        assert(!touches_source(evs[evs.len() - 1]));
        let m = initial_model();
        if e.success && e.kind@ == "exec"@ {
            let cs = carriers(e.cmdline@);
            assert(cs.len() == 0);
            assert(carried_by_args(m, cs) == Set::<TaintKind>::empty());
            assert(arg_marks(cs, e.pid) == Set::<Mark>::empty());
            assert(held_by(m, e.ppid) == Set::<TaintKind>::empty());
            assert(Set::<TaintKind>::empty().union(Set::<TaintKind>::empty()) =~= Set::<
                TaintKind,
            >::empty());
            assert(m.tainted.union(Set::<Mark>::empty()) =~= m.tainted);
        }
        assert(propagate(evs, t).1 =~= Seq::<FlowView>::empty());
    }
}


/// Source classification ignores ASCII letter case: a path, its lower-cased
/// form and its upper-cased form name the same sensitive kinds (what
/// `source_kinds_for_path` returns for each of them).
pub proof fn law_sources_ignore_case(path: Seq<char>)
    ensures
        source_kinds(ascii_lower(path)) == source_kinds(path),
        source_kinds(ascii_upper(path)) == source_kinds(path),
{
    assert(ascii_lower(ascii_lower(path)) =~= ascii_lower(path));
    assert(ascii_lower(ascii_upper(path)) =~= ascii_lower(path));
}

/// The kinds of `q` come in strictly increasing declared order.
pub open spec fn rank_increasing(q: Seq<TaintKind>) -> bool {
    forall|i: int, j: int| 0 <= i < j < q.len() ==> kind_rank(q[i]) < kind_rank(q[j])
}

proof fn lemma_extend_increasing(q: Seq<TaintKind>, extra: Seq<TaintKind>, r: int)
    requires
        rank_increasing(q),
        forall|i: int| 0 <= i < q.len() ==> kind_rank(#[trigger] q[i]) < r,
        extra.len() <= 1,
        forall|i: int| 0 <= i < extra.len() ==> kind_rank(#[trigger] extra[i]) == r,
    ensures
        rank_increasing(q + extra),
        forall|i: int| 0 <= i < (q + extra).len() ==> kind_rank(#[trigger] (q + extra)[i]) <= r,
{
    let z = q + extra;
    assert forall|i: int, j: int| 0 <= i < j < z.len() implies kind_rank(z[i]) < kind_rank(z[j]) by {
        assert(z[i] == q[i]);
        if j < q.len() {
            assert(z[j] == q[j]);
        } else {
            assert(z[j] == extra[j - q.len()]);
        }
    }
    assert forall|i: int| 0 <= i < z.len() implies kind_rank(#[trigger] z[i]) <= r by {
        if i < q.len() {
            assert(z[i] == q[i]);
        } else {
            assert(z[i] == extra[i - q.len()]);
        }
    }
}

/// `in_kind_order` lists kinds in strictly increasing declared order.
pub proof fn lemma_kind_order_increasing(s: Set<TaintKind>)
    ensures
        rank_increasing(in_kind_order(s)),
{
    let a = kind_if(s.contains(TaintKind::Credentials), TaintKind::Credentials);
    let b = kind_if(s.contains(TaintKind::CryptoKey), TaintKind::CryptoKey);
    let c = kind_if(s.contains(TaintKind::SessionToken), TaintKind::SessionToken);
    let d = kind_if(s.contains(TaintKind::CloudCredentials), TaintKind::CloudCredentials);
    let e = kind_if(s.contains(TaintKind::DatabaseDump), TaintKind::DatabaseDump);
    let f = kind_if(s.contains(TaintKind::PersonalData), TaintKind::PersonalData);
    assert(in_kind_order(s) == a + b + c + d + e + f);
    let z = Seq::<TaintKind>::empty();
    lemma_extend_increasing(z, a, 0);
    assert(z + a =~= a);
    lemma_extend_increasing(a, b, 1);
    lemma_extend_increasing(a + b, c, 2);
    lemma_extend_increasing(a + b + c, d, 3);
    lemma_extend_increasing(a + b + c + d, e, 4);
    lemma_extend_increasing(a + b + c + d + e, f, 5);
}

/// The flows that one event adds come one per kind, in the declared order
/// of kinds (so no kind twice), and all belong to that event: its sequence
/// number and its process.
pub proof fn law_step_flows_in_kind_order(m: TaintModel, e: Event, t: TreeView)
    ensures
        rank_increasing(step(m, e, t).1.map_values(|f: FlowView| f.kind)),
        forall|i: int|
            0 <= i < step(m, e, t).1.len() ==> (#[trigger] step(m, e, t).1[i]).sink_seq == e.seq
                && step(m, e, t).1[i].sink_pid == e.pid,
{
    let out = step(m, e, t).1;
    let ks = out.map_values(|f: FlowView| f.kind);
    if out.len() > 0 {
        let h = if e.kind@ == "file"@ {
            m.held[e.pid]
        } else if m.held.contains_key(e.pid) {
            m.held[e.pid]
        } else {
            held_by(m, e.ppid)
        };
        lemma_kind_order_increasing(h);
        let o = in_kind_order(h);
        assert(out.len() == o.len());
        assert forall|i: int| 0 <= i < ks.len() implies ks[i] == o[i] by {
            assert(out[i].kind == o[i]);
        }
        assert(ks =~= o);
    } else {
        assert(ks =~= Seq::<TaintKind>::empty());
    }
}

/// Flows accumulate in stream order: the flows of the first `k` events are
/// a prefix of the flows of the whole stream, and the flows of event `k`
/// follow right after them (so flows of an earlier event come before flows
/// of a later one).
pub proof fn law_flows_in_stream_order(evs: Seq<Event>, t: TreeView, k: int)
    requires
        0 <= k <= evs.len(),
    ensures
        taint_flows(evs.take(k), t).is_prefix_of(taint_flows(evs, t)),
        k < evs.len() ==> taint_flows(evs.take(k + 1), t) == taint_flows(evs.take(k), t) + step(
            propagate(evs.take(k), t).0,
            evs[k],
            t,
        ).1,
    decreases evs.len(),
{
    if k < evs.len() {
        let d = evs.drop_last();
        assert(evs.take(k + 1).drop_last() =~= evs.take(k));
        assert(evs.take(k + 1).last() == evs[k]);
        law_flows_in_stream_order(d, t, k);
        assert(d.take(k) =~= evs.take(k));
        let pre = taint_flows(evs.take(k), t);
        let mid = taint_flows(d, t);
        let all = taint_flows(evs, t);
        assert(all == mid + step(propagate(d, t).0, evs.last(), t).1);
        assert(pre =~= all.subrange(0, pre.len() as int)) by {
            assert forall|i: int| 0 <= i < pre.len() implies pre[i] == all[i] by {
                assert(pre[i] == mid.subrange(0, pre.len() as int)[i]);
                assert(all[i] == mid[i]);
            }
        }
    } else {
        assert(evs.take(k) =~= evs);
        assert(taint_flows(evs, t).subrange(0, taint_flows(evs, t).len() as int) =~= taint_flows(
            evs,
            t,
        ));
    }
}


/// Event `e` brings kind `k` into the stream: a successful read of a
/// sensitive file of that kind, or a successful exec naming such a file in
/// its argv.
pub open spec fn introduces(e: Event, k: TaintKind) -> bool {
    &&& e.success
    &&& {
        ||| e.kind@ == "file"@ && source_kinds(e.target@).contains(k)
        ||| e.kind@ == "exec"@ && exists|c: Seq<char>|
            carriers(e.cmdline@).contains(c) && #[trigger] source_kinds(c).contains(k)
    }
}

/// The kinds that some event of `evs` brings in.
pub open spec fn introduced(evs: Seq<Event>) -> Set<TaintKind> {
    Set::new(|k: TaintKind| exists|j: int| 0 <= j < evs.len() && #[trigger] introduces(evs[j], k))
}

/// Every kind that a process holds or a mark carries lies in `s`.
spec fn sourced(m: TaintModel, s: Set<TaintKind>) -> bool {
    &&& forall|p: u32, k: TaintKind|
        m.held.contains_key(p) && #[trigger] m.held[p].contains(k) ==> s.contains(k)
    &&& forall|mk: Mark| #[trigger] m.tainted.contains(mk) ==> s.contains(mk.0)
}

/// What an exec picks up from its argv, and the marks it lays there, come
/// from what is already held or from the sources its arguments name.
proof fn lemma_args_sourced(m: TaintModel, cs: Seq<Seq<char>>, pid: u32, s: Set<TaintKind>)
    requires
        sourced(m, s),
    ensures
        forall|k: TaintKind|
            #[trigger] carried_by_args(m, cs).contains(k) ==> s.contains(k) || exists|i: int|
                0 <= i < cs.len() && source_kinds(cs[i]).contains(k),
        forall|mk: Mark|
            #[trigger] arg_marks(cs, pid).contains(mk) ==> exists|i: int|
                0 <= i < cs.len() && source_kinds(cs[i]).contains(mk.0),
    decreases cs.len(),
{
    if cs.len() > 0 {
        let d = cs.drop_last();
        lemma_args_sourced(m, d, pid, s);
        let n = cs.len() - 1;
        assert forall|k: TaintKind| #[trigger] carried_by_args(m, cs).contains(k) implies s.contains(k)
            || exists|i: int| 0 <= i < cs.len() && source_kinds(cs[i]).contains(k) by {
            if carried_by_args(m, d).contains(k) {
                if !s.contains(k) {
                    let i = choose|i: int| 0 <= i < d.len() && source_kinds(d[i]).contains(k);
                    assert(cs[i] == d[i]);
                }
            } else if source_kinds(cs.last()).to_set().contains(k) {
                assert(source_kinds(cs[n]).contains(k));
            }
        }
        assert forall|mk: Mark| #[trigger] arg_marks(cs, pid).contains(mk) implies exists|i: int|
            0 <= i < cs.len() && source_kinds(cs[i]).contains(mk.0) by {
            if arg_marks(d, pid).contains(mk) {
                let i = choose|i: int| 0 <= i < d.len() && source_kinds(d[i]).contains(mk.0);
                assert(cs[i] == d[i]);
            } else {
                assert(source_kinds(cs[n]).contains(mk.0));
            }
        }
    }
}

/// One step keeps every held or carried kind within what was there before
/// plus what the event brings in, and its flows carry only kinds held
/// before it.
#[verifier::spinoff_prover]
#[verifier::rlimit(40)]
proof fn lemma_step_sourced(m: TaintModel, e: Event, t: TreeView, s: Set<TaintKind>)
    requires
        sourced(m, s),
    ensures
        sourced(step(m, e, t).0, s.union(Set::new(|k: TaintKind| introduces(e, k)))),
        forall|i: int|
            0 <= i < step(m, e, t).1.len() ==> s.contains((#[trigger] step(m, e, t).1[i]).kind),
{
    let s2 = s.union(Set::new(|k: TaintKind| introduces(e, k)));
    let out = step(m, e, t).1;
    let m2 = step(m, e, t).0;
    if e.success && e.kind@ == "exec"@ {
        let cs = carriers(e.cmdline@);
        lemma_args_sourced(m, cs, e.pid, s);
        let kinds = held_by(m, e.ppid).union(carried_by_args(m, cs));
        assert forall|k: TaintKind| kinds.contains(k) implies s2.contains(k) by {
            if !held_by(m, e.ppid).contains(k) && !s.contains(k) {
                let i = choose|i: int| 0 <= i < cs.len() && source_kinds(cs[i]).contains(k);
                assert(cs.contains(cs[i]));
                assert(introduces(e, k));
            }
        }
        assert forall|mk: Mark| #[trigger] m2.tainted.contains(mk) implies s2.contains(mk.0) by {
            if !m.tainted.contains(mk) {
                let i = choose|i: int| 0 <= i < cs.len() && source_kinds(cs[i]).contains(mk.0);
                assert(cs.contains(cs[i]));
                assert(introduces(e, mk.0));
            }
        }
    } else if e.success && e.kind@ == "file"@ {
        let src = source_kinds(e.target@);
        if src.len() > 0 {
            let h = held_by(m, e.pid).union(src.to_set());
            assert forall|k: TaintKind| h.contains(k) implies s2.contains(k) by {
                if src.to_set().contains(k) {
                    assert(introduces(e, k));
                }
            }
        } else if m.held.contains_key(e.pid) {
            let h = m.held[e.pid];
            lemma_kind_order_members(h);
            assert forall|i: int| 0 <= i < out.len() implies s.contains((#[trigger] out[i]).kind) by {
                assert(in_kind_order(h).contains(in_kind_order(h)[i]));
            }
        }
    } else if e.success && e.kind@ == "net-connect"@ {
        let h = if m.held.contains_key(e.pid) {
            m.held[e.pid]
        } else {
            held_by(m, e.ppid)
        };
        lemma_kind_order_members(h);
        assert forall|i: int| 0 <= i < out.len() implies s.contains((#[trigger] out[i]).kind) by {
            assert(in_kind_order(h).contains(in_kind_order(h)[i]));
        }
    }
}

/// After a stream, every held or carried kind was brought in by one of its
/// events.
proof fn lemma_propagate_sourced(evs: Seq<Event>, t: TreeView)
    ensures
        sourced(propagate(evs, t).0, introduced(evs)),
    decreases evs.len(),
{
    if evs.len() > 0 {
        let d = evs.drop_last();
        let e = evs.last();
        lemma_propagate_sourced(d, t);
        lemma_step_sourced(propagate(d, t).0, e, t, introduced(d));
        let s2 = introduced(d).union(Set::new(|k: TaintKind| introduces(e, k)));
        assert forall|k: TaintKind| s2.contains(k) implies introduced(evs).contains(k) by {
            if introduced(d).contains(k) {
                let j = choose|j: int| 0 <= j < d.len() && #[trigger] introduces(d[j], k);
                assert(evs[j] == d[j]);
            } else {
                assert(introduces(evs[evs.len() - 1], k));
            }
        }
    }
}

/// Taint is only ever born at a source: every flow that event `k` of a
/// stream adds carries a kind that a successful source event earlier in
/// the stream (a read of a sensitive file, or an exec naming one) brought
/// in.
pub proof fn law_flow_kinds_come_from_earlier_sources(evs: Seq<Event>, t: TreeView, k: int)
    requires
        0 <= k < evs.len(),
    ensures
        forall|i: int|
            0 <= i < step(propagate(evs.take(k), t).0, evs[k], t).1.len() ==> exists|j: int|
                0 <= j < k && introduces(
                    evs[j],
                    (#[trigger] step(propagate(evs.take(k), t).0, evs[k], t).1[i]).kind,
                ),
{
    let pre = evs.take(k);
    lemma_propagate_sourced(pre, t);
    lemma_step_sourced(propagate(pre, t).0, evs[k], t, introduced(pre));
    let out = step(propagate(pre, t).0, evs[k], t).1;
    assert forall|i: int| 0 <= i < out.len() implies exists|j: int|
        0 <= j < k && introduces(evs[j], (#[trigger] out[i]).kind) by {
        let kk = out[i].kind;
        assert(introduced(pre).contains(kk));
        let j = choose|j: int| 0 <= j < pre.len() && #[trigger] introduces(pre[j], kk);
        assert(pre[j] == evs[j]);
    }
}

/// What the sensitive-source rules say of a path, one rule at a time.
proof fn lemma_source_kinds_contains(path: Seq<char>, k: TaintKind)
    ensures
        source_kinds(path).contains(k) <==> {
            let p = ascii_lower(path);
            ||| key_material(p) && k == TaintKind::Credentials
            ||| agent_socket(p) && k == TaintKind::Credentials
            ||| cloud_config(p) && k == TaintKind::CloudCredentials
            ||| key_store(p) && k == TaintKind::CryptoKey
            ||| dotenv(p) && k == TaintKind::Credentials
            ||| browser_session(p) && k == TaintKind::SessionToken
            ||| dump_file(p) && k == TaintKind::DatabaseDump
            ||| personal_records(p) && k == TaintKind::PersonalData
        },
{
    let p = ascii_lower(path);
    let a = kind_if(key_material(p), TaintKind::Credentials);
    let b = kind_if(agent_socket(p), TaintKind::Credentials);
    let c = kind_if(cloud_config(p), TaintKind::CloudCredentials);
    let d = kind_if(key_store(p), TaintKind::CryptoKey);
    let e = kind_if(dotenv(p), TaintKind::Credentials);
    let f = kind_if(browser_session(p), TaintKind::SessionToken);
    let g = kind_if(dump_file(p), TaintKind::DatabaseDump);
    let h = kind_if(personal_records(p), TaintKind::PersonalData);
    assert(source_kinds(path) == a + b + c + d + e + f + g + h);
    lemma_concat_contains(a, b, k);
    lemma_concat_contains(a + b, c, k);
    lemma_concat_contains(a + b + c, d, k);
    lemma_concat_contains(a + b + c + d, e, k);
    lemma_concat_contains(a + b + c + d + e, f, k);
    lemma_concat_contains(a + b + c + d + e + f, g, k);
    lemma_concat_contains(a + b + c + d + e + f + g, h, k);
    lemma_kind_if_contains(key_material(p), TaintKind::Credentials, k);
    lemma_kind_if_contains(agent_socket(p), TaintKind::Credentials, k);
    lemma_kind_if_contains(cloud_config(p), TaintKind::CloudCredentials, k);
    lemma_kind_if_contains(key_store(p), TaintKind::CryptoKey, k);
    lemma_kind_if_contains(dotenv(p), TaintKind::Credentials, k);
    lemma_kind_if_contains(browser_session(p), TaintKind::SessionToken, k);
    lemma_kind_if_contains(dump_file(p), TaintKind::DatabaseDump, k);
    lemma_kind_if_contains(personal_records(p), TaintKind::PersonalData, k);
}

/// Cloud credential stores: a path that names, in any letter case, an AWS
/// credentials file, a gcloud configuration, an Azure profile or a kube
/// configuration is a cloud-credentials source, and a successful read of
/// it taints the reader with cloud credentials.
pub proof fn law_cloud_stores_are_sources(path: Seq<char>, m: TaintModel, e: Event, t: TreeView)
    requires
        has_sub(ascii_lower(path), ".aws/credentials"@) || has_sub(ascii_lower(path), ".config/gcloud"@)
            || has_sub(ascii_lower(path), ".azure/"@) || has_sub(ascii_lower(path), ".kube/config"@),
    ensures
        source_kinds(path).contains(TaintKind::CloudCredentials),
        e.success && e.kind@ == "file"@ && e.target@ == path ==> held_by(step(m, e, t).0, e.pid).contains(
            TaintKind::CloudCredentials,
        ),
{
    reveal(cloud_config);
    lemma_source_kinds_contains(path, TaintKind::CloudCredentials);
    law_taint_propagates(m, e, t);
}

/// Environment files: a path containing `.env` (in any letter case) that
/// is not under `/proc/` is a credentials source, and a successful read of
/// it taints the reader with credentials.
pub proof fn law_env_files_are_sources(path: Seq<char>, m: TaintModel, e: Event, t: TreeView)
    requires
        has_sub(ascii_lower(path), ".env"@),
        !has_sub(ascii_lower(path), "/proc/"@),
    ensures
        source_kinds(path).contains(TaintKind::Credentials),
        e.success && e.kind@ == "file"@ && e.target@ == path ==> held_by(step(m, e, t).0, e.pid).contains(
            TaintKind::Credentials,
        ),
{
    reveal(dotenv);
    lemma_source_kinds_contains(path, TaintKind::Credentials);
    law_taint_propagates(m, e, t);
}

/// Archive sinks: a successful write, by a process holding taint, of a
/// file that is no sensitive source and whose lower-cased name ends in
/// `.tar`, `.tar.gz`, `.tgz`, `.zip` or `.7z` gives one `archive-write`
/// flow per kind held, at that file and process.
pub proof fn law_archive_writes_are_sinks(m: TaintModel, e: Event, t: TreeView)
    requires
        e.success,
        e.kind@ == "file"@,
        source_kinds(e.target@).len() == 0,
        m.held.contains_key(e.pid),
        has_suffix(ascii_lower(e.target@), ".tar"@) || has_suffix(ascii_lower(e.target@), ".tar.gz"@)
            || has_suffix(ascii_lower(e.target@), ".tgz"@) || has_suffix(ascii_lower(e.target@), ".zip"@)
            || has_suffix(ascii_lower(e.target@), ".7z"@),
    ensures
        step(m, e, t).1.map_values(|f: FlowView| f.kind).to_set() == m.held[e.pid],
        step(m, e, t).1.len() == in_kind_order(m.held[e.pid]).len(),
        forall|i: int|
            0 <= i < step(m, e, t).1.len() ==> (#[trigger] step(m, e, t).1[i]).sink_kind
                == "archive-write"@ && step(m, e, t).1[i].sink_target == e.target@
                && step(m, e, t).1[i].sink_pid == e.pid && step(m, e, t).1[i].sink_seq == e.seq,
{
    reveal_strlit("file");
    reveal_strlit("exec");
    assert("file"@[0] != "exec"@[0]);
    let h = m.held[e.pid];
    let out = step(m, e, t).1;
    assert(out == flows_at(e, t, h, e.target@, "archive-write"@));
    lemma_kind_order_members(h);
    let ks = out.map_values(|f: FlowView| f.kind);
    assert(ks =~= in_kind_order(h)) by {
        assert forall|i: int| 0 <= i < ks.len() implies ks[i] == in_kind_order(h)[i] by {
            assert(out[i].kind == in_kind_order(h)[i]);
        }
    }
    assert(ks.to_set() =~= h) by {
        assert forall|k: TaintKind| ks.to_set().contains(k) <==> h.contains(k) by {
            assert(ks.to_set().contains(k) <==> ks.contains(k));
        }
    }
}

} // verus!
