//! Event model for Linux auditd telemetry.
//!
//! LabTrace ingests JSONL events (one JSON object per line) shaped like
//! enriched auditd/syslog records. Only a handful of fields are required;
//! anything extra is preserved and carried along.
//!
//! Decoding one JSON object into an [`Event`] is done by the caller (the
//! command-line front end uses serde); this module decides which lines are
//! records, numbers them, collects decoding errors and puts the stream in
//! timeline order.
use std::collections::BTreeMap;
use vstd::multiset::Multiset;
use vstd::prelude::*;

use crate::text::{
    chars_of, decimal, decimal_chars, pieces, push_chars, push_str, same_text, split, string_of, trim,
    trimmed, Sep,
};

verus! {

/// `serde_json::Value`: the free-form value of an extra field, carried
/// through unread.
#[verifier::external_type_specification]
#[verifier::external_body]
pub struct ExJsonValue(serde_json::Value);

/// One telemetry event (normalized).
#[derive(Debug, Clone)]
pub struct Event {
    /// Monotonic sequence number (order of the input preserved).
    pub seq: u64,
    /// RFC3339 or epoch seconds as string — kept verbatim for the timeline.
    pub ts: String,
    /// Sort key of the numeric timestamp, when present: an integer that
    /// orders events exactly as their epoch seconds do (the front end maps
    /// each epoch to it).
    pub epoch: Option<i64>,
    /// Process id of the acting process.
    pub pid: u32,
    /// Parent process id.
    pub ppid: u32,
    /// User id.
    pub uid: i64,
    /// Event class: exec, file, net-connect, net-accept, socket, user-add, ...
    pub kind: String,
    /// Executable path (for exec) or acting binary path.
    pub exe: String,
    /// Full command line (argv joined).
    pub cmdline: String,
    /// Operation target: file path, remote ip:port, account name, ...
    pub target: String,
    /// Success flag (syscall result >= 0).
    pub success: bool,
    /// Free-form extra fields (hostname, tty, cwd, ...).
    pub extra: BTreeMap<String, serde_json::Value>,
}

/// The timeline label of an event of class `kind`.
pub open spec fn label_of(kind: Seq<char>, exe: Seq<char>, target: Seq<char>) -> Seq<char> {
    if kind == "exec"@ {
        "exec "@ + exe
    } else if kind == "file"@ {
        "file "@ + target
    } else if kind == "net-connect"@ {
        "connect "@ + target
    } else if kind == "net-accept"@ {
        "accept "@ + target
    } else if kind == "socket"@ {
        "socket "@ + target
    } else if kind == "user-add"@ {
        "useradd "@ + target
    } else {
        kind + " "@ + target
    }
}

impl Event {
    /// A short human label used in timelines.
    pub fn label(&self) -> (s: String)
        ensures
            s@ == label_of(self.kind@, self.exe@, self.target@),
    {
        let k = chars_of(self.kind.as_str());
        let mut buf: Vec<char> = Vec::new();
        if same_text(k.as_slice(), "exec") {
            push_str(&mut buf, "exec ");
            push_str(&mut buf, self.exe.as_str());
        } else {
            if same_text(k.as_slice(), "file") {
                push_str(&mut buf, "file ");
            } else if same_text(k.as_slice(), "net-connect") {
                push_str(&mut buf, "connect ");
            } else if same_text(k.as_slice(), "net-accept") {
                push_str(&mut buf, "accept ");
            } else if same_text(k.as_slice(), "socket") {
                push_str(&mut buf, "socket ");
            } else if same_text(k.as_slice(), "user-add") {
                push_str(&mut buf, "useradd ");
            } else {
                push_chars(&mut buf, k.as_slice());
                push_str(&mut buf, " ");
            }
            push_str(&mut buf, self.target.as_str());
        }
        string_of(buf.as_slice())
    }
}

// ------------------------------------------------------------------------
// JSONL framing
// ------------------------------------------------------------------------

/// A trimmed line holds a record: it is neither empty nor a `#` comment.
pub open spec fn is_record(t: Seq<char>) -> bool {
    t.len() > 0 && t[0] != '#'
}

/// The records among `lines`, each with its 1-based line number.
pub open spec fn records_of(lines: Seq<Seq<char>>) -> Seq<(int, Seq<char>)>
    decreases lines.len(),
{
    if lines.len() == 0 {
        Seq::empty()
    } else {
        let prev = records_of(lines.drop_last());
        let t = trimmed(lines.last());
        if is_record(t) {
            prev.push((lines.len() as int, t))
        } else {
            prev
        }
    }
}

/// The records of a JSONL text: its lines (split at `\n`), trimmed, with
/// blank lines and `#` comments left out, each with its 1-based line number.
pub open spec fn jsonl_records_of(input: Seq<char>) -> Seq<(int, Seq<char>)> {
    records_of(pieces(input, Sep::Char('\n')))
}

/// The view of one framed record: its line number and text.
pub open spec fn record_view(r: (usize, String)) -> (int, Seq<char>) {
    (r.0 as int, r.1@)
}

/// Splits a JSONL text into the records to decode, in file order, each with
/// its 1-based line number and its trimmed text.
pub fn jsonl_records(input: &str) -> (out: Vec<(usize, String)>)
    ensures
        out@.map_values(|r: (usize, String)| record_view(r)) == jsonl_records_of(input@),
{
    let chars = chars_of(input);
    let lines = split(chars.as_slice(), Sep::Char('\n'));
    let ghost ls = pieces(input@, Sep::Char('\n'));
    let mut out: Vec<(usize, String)> = Vec::new();
    let mut i: usize = 0;
    while i < lines.len()
        invariant
            lines.deep_view() == ls,
            i <= ls.len(),
            out@.map_values(|r: (usize, String)| record_view(r)) == records_of(ls.take(i as int)),
        decreases lines.len() - i,
    {
        let t = trim(lines[i].as_slice());
        let ghost prev = out@.map_values(|r: (usize, String)| record_view(r));
        proof {
            assert(ls.take(i + 1).drop_last() =~= ls.take(i as int));
            assert(ls.take(i + 1).last() == lines[i as int]@);
            assert(lines.deep_view()[i as int] == lines@[i as int].deep_view());
            assert(lines@[i as int].deep_view() =~= lines@[i as int]@);
        }
        if t.len() > 0 && t[0] != '#' {
            let s = string_of(t.as_slice());
            out.push((i + 1, s));
            assert(out@.map_values(|r: (usize, String)| record_view(r)) =~= prev.push(
                ((i + 1) as int, t@),
            ));
        }
        i = i + 1;
    }
    assert(ls.take(ls.len() as int) =~= ls);
    out
}

// ------------------------------------------------------------------------
// Numbering, errors and timeline order
// ------------------------------------------------------------------------

/// The sort key of an event: its epoch (0 when absent), then its sequence
/// number.
pub open spec fn epoch_key(e: Event) -> int {
    match e.epoch {
        Some(x) => x as int,
        None => 0,
    }
}

/// `a` comes after `b` in timeline order.
pub open spec fn after(a: Event, b: Event) -> bool {
    epoch_key(a) > epoch_key(b) || (epoch_key(a) == epoch_key(b) && a.seq > b.seq)
}

/// `s` is in timeline order.
pub open spec fn in_timeline_order(s: Seq<Event>) -> bool {
    forall|i: int, j: int| 0 <= i < j < s.len() ==> !after(#[trigger] s[i], #[trigger] s[j])
}

/// `e` placed into `s` after every element it does not precede: the
/// insertion step of a stable sort.
pub open spec fn insert_in_order(s: Seq<Event>, e: Event) -> Seq<Event>
    decreases s.len(),
{
    if s.len() == 0 {
        seq![e]
    } else if after(s.last(), e) {
        insert_in_order(s.drop_last(), e).push(s.last())
    } else {
        s.push(e)
    }
}

/// The stable sort of `s` into timeline order (what `sort_by` with the
/// (epoch, seq) comparison gives).
pub open spec fn timeline(s: Seq<Event>) -> Seq<Event>
    decreases s.len(),
{
    if s.len() == 0 {
        s
    } else {
        insert_in_order(timeline(s.drop_last()), s.last())
    }
}

/// A decoded event with its sequence number filled in: events without one
/// (`seq == 0`) are numbered by their line.
pub open spec fn numbered(line: int, e: Event) -> Event {
    if e.seq == 0 {
        Event { seq: line as u64, ..e }
    } else {
        e
    }
}

/// The events among decoded records, in record order, numbered.
pub open spec fn decoded_events(d: Seq<(usize, Result<Event, String>)>) -> Seq<Event>
    decreases d.len(),
{
    if d.len() == 0 {
        Seq::empty()
    } else {
        let prev = decoded_events(d.drop_last());
        match d.last().1 {
            Ok(e) => prev.push(numbered(d.last().0 as int, e)),
            Err(_) => prev,
        }
    }
}

/// The error message reported for a record that failed to decode.
pub open spec fn error_line(line: int, msg: Seq<char>) -> Seq<char> {
    "line "@ + decimal(line as nat) + ": "@ + msg
}

/// The error messages of decoded records, in record order.
pub open spec fn decode_errors(d: Seq<(usize, Result<Event, String>)>) -> Seq<Seq<char>>
    decreases d.len(),
{
    if d.len() == 0 {
        Seq::empty()
    } else {
        let prev = decode_errors(d.drop_last());
        match d.last().1 {
            Ok(_) => prev,
            Err(m) => prev.push(error_line(d.last().0 as int, m@)),
        }
    }
}

/// `after` for executable code.
fn comes_after(a: &Event, b: &Event) -> (r: bool)
    ensures
        r == after(*a, *b),
{
    let ka: i64 = match a.epoch {
        Some(x) => x,
        None => 0,
    };
    let kb: i64 = match b.epoch {
        Some(x) => x,
        None => 0,
    };
    ka > kb || (ka == kb && a.seq > b.seq)
}

/// Inserting by a backward scan gives `insert_in_order`.
proof fn lemma_insert_split(s: Seq<Event>, e: Event, j: int)
    requires
        0 <= j <= s.len(),
        forall|k: int| j <= k < s.len() ==> after(#[trigger] s[k], e),
        j == 0 || !after(s[j - 1], e),
    ensures
        insert_in_order(s, e) == s.take(j).push(e) + s.skip(j),
    decreases s.len(),
{
    if s.len() == 0 {
        assert(s.take(j).push(e) + s.skip(j) =~= seq![e]);
    } else if j == s.len() {
        assert(s.take(j) =~= s);
        assert(s.skip(j) =~= Seq::<Event>::empty());
        assert(s.take(j).push(e) + s.skip(j) =~= s.push(e));
    } else {
        assert(after(s.last(), e));
        lemma_insert_split(s.drop_last(), e, j);
        assert(s.drop_last().take(j) =~= s.take(j));
        assert(s.drop_last().skip(j).push(s.last()) =~= s.skip(j));
        assert((s.drop_last().take(j).push(e) + s.drop_last().skip(j)).push(s.last()) =~= s.take(
            j,
        ).push(e) + s.skip(j));
    }
}

/// Inserts `e` into `v` as the stable sort does.
fn insert_sorted(v: &mut Vec<Event>, e: Event)
    ensures
        final(v)@ == insert_in_order(old(v)@, e),
{
    let mut j: usize = v.len();
    while j > 0 && comes_after(&v[j - 1], &e)
        invariant
            j <= v@.len(),
            forall|k: int| j <= k < v@.len() ==> after(#[trigger] v@[k], e),
        decreases j,
    {
        j = j - 1;
    }
    proof {
        lemma_insert_split(v@, e, j as int);
    }
    let ghost before = v@;
    v.insert(j, e);
    assert(v@ =~= before.take(j as int).push(e) + before.skip(j as int));
}

/// Numbers decoded events, collects the errors of records that failed to
/// decode, and puts the events in timeline order.
///
/// `decoded` holds, for each record in file order, its line number and
/// either the decoded event or the decoder's error message. Events without
/// a sequence number get their line number. The events are then ordered by
/// epoch (absent counts as 0) and sequence number, keeping the record order
/// among equal keys. A record that failed to decode is reported as
/// `line N: message` and does not stop the others.
pub fn parse_jsonl(decoded: Vec<(usize, Result<Event, String>)>) -> (out: (Vec<Event>, Vec<String>))
    ensures
        out.0@ == timeline(decoded_events(decoded@)),
        out.1@.map_values(|m: String| m@) == decode_errors(decoded@),
{
    let ghost d = decoded@;
    let mut events: Vec<Event> = Vec::new();
    let mut errors: Vec<String> = Vec::new();
    for item in it: decoded
        invariant
            it.seq() == d,
            events@ == timeline(decoded_events(d.take(it.index() as int))),
            errors@.map_values(|m: String| m@) == decode_errors(d.take(it.index() as int)),
    {
        let ghost k = it.index() as int;
        proof {
            assert(d.take(k + 1).drop_last() =~= d.take(k));
            assert(d.take(k + 1).last() == item);
        }
        let (line, r) = item;
        match r {
            Ok(mut ev) => {
                let ghost orig = ev;
                if ev.seq == 0 {
                    ev.seq = line as u64;
                }
                assert(ev == numbered(line as int, orig));
                assert(decoded_events(d.take(k + 1)) == decoded_events(d.take(k)).push(ev));
                assert(decoded_events(d.take(k)).push(ev).drop_last() =~= decoded_events(
                    d.take(k),
                ));
                insert_sorted(&mut events, ev);
            },
            Err(msg) => {
                let mut buf: Vec<char> = Vec::new();
                push_str(&mut buf, "line ");
                let digits = decimal_chars(line as u64);
                push_chars(&mut buf, digits.as_slice());
                push_str(&mut buf, ": ");
                push_str(&mut buf, msg.as_str());
                let ghost prev = errors@.map_values(|m: String| m@);
                errors.push(string_of(buf.as_slice()));
                assert(errors@.map_values(|m: String| m@) =~= prev.push(
                    error_line(line as int, msg@),
                ));
            },
        }
    }
    assert(d.take(d.len() as int) =~= d);
    (events, errors)
}


// ------------------------------------------------------------------------
// Laws
// ------------------------------------------------------------------------

/// The elements of `insert_in_order(s, e)` are those of `s` and `e`.
pub proof fn lemma_insert_keeps_elements(s: Seq<Event>, e: Event)
    ensures
        insert_in_order(s, e).to_multiset() == s.to_multiset().insert(e),
        forall|x: Event| #[trigger] insert_in_order(s, e).contains(x) ==> x == e || s.contains(x),
    decreases s.len(),
{
    broadcast use vstd::seq_lib::group_to_multiset_ensures;
    broadcast use vstd::multiset::group_multiset_axioms;

    if s.len() == 0 {
        assert(seq![e] =~= Seq::<Event>::empty().push(e));
        assert(s.to_multiset() =~= Multiset::<Event>::empty());
    } else if after(s.last(), e) {
        let d = s.drop_last();
        lemma_insert_keeps_elements(d, e);
        assert(s =~= d.push(s.last()));
        assert(insert_in_order(s, e).to_multiset() =~= s.to_multiset().insert(e));
        assert forall|x: Event| insert_in_order(s, e).contains(x) implies x == e || s.contains(x) by {
            let r = insert_in_order(d, e);
            let k = choose|k: int| 0 <= k < r.push(s.last()).len() && r.push(s.last())[k] == x;
            if k < r.len() {
                assert(r[k] == x);
                assert(r.contains(x));
                if x != e {
                    let m = choose|m: int| 0 <= m < d.len() && d[m] == x;
                    assert(s[m] == x);
                }
            } else {
                assert(s[s.len() - 1] == x);
            }
        }
    } else {
        assert forall|x: Event| s.push(e).contains(x) implies x == e || s.contains(x) by {
            let k = choose|k: int| 0 <= k < s.push(e).len() && s.push(e)[k] == x;
            if k < s.len() {
                assert(s[k] == x);
            }
        }
    }
}

/// Inserting into a timeline-ordered sequence keeps it in order.
pub proof fn lemma_insert_keeps_order(s: Seq<Event>, e: Event)
    requires
        in_timeline_order(s),
    ensures
        in_timeline_order(insert_in_order(s, e)),
    decreases s.len(),
{
    if s.len() == 0 {
    } else if after(s.last(), e) {
        let d = s.drop_last();
        let l = s.last();
        assert(in_timeline_order(d)) by {
            assert forall|i: int, j: int| 0 <= i < j < d.len() implies !after(#[trigger] d[i], #[trigger] d[j]) by {
                assert(d[i] == s[i] && d[j] == s[j]);
            }
        }
        lemma_insert_keeps_order(d, e);
        lemma_insert_keeps_elements(d, e);
        let r = insert_in_order(d, e);
        assert forall|i: int, j: int| 0 <= i < j < r.push(l).len() implies !after(#[trigger] r.push(l)[i], #[trigger] r.push(l)[j]) by {
            if j == r.len() {
                let x = r[i];
                assert(r.contains(x));
                if x != e {
                    let m = choose|m: int| 0 <= m < d.len() && d[m] == x;
                    assert(s[m] == x);
                    assert(!after(s[m], s[s.len() - 1]));
                }
            } else {
                assert(r.push(l)[i] == r[i] && r.push(l)[j] == r[j]);
            }
        }
    } else {
        assert forall|i: int, j: int| 0 <= i < j < s.push(e).len() implies !after(#[trigger] s.push(e)[i], #[trigger] s.push(e)[j]) by {
            if j == s.len() {
                assert(!after(s[i], s[s.len() - 1]) || i == s.len() - 1);
            } else {
                assert(s.push(e)[i] == s[i] && s.push(e)[j] == s[j]);
            }
        }
    }
}

/// The timeline holds exactly the events it was given.
pub proof fn lemma_timeline_permutes(s: Seq<Event>)
    ensures
        timeline(s).to_multiset() == s.to_multiset(),
    decreases s.len(),
{
    broadcast use vstd::seq_lib::group_to_multiset_ensures;

    if s.len() > 0 {
        lemma_timeline_permutes(s.drop_last());
        lemma_insert_keeps_elements(timeline(s.drop_last()), s.last());
        assert(s =~= s.drop_last().push(s.last()));
    }
}

/// The timeline is in order of epoch, then sequence number.
pub proof fn lemma_timeline_ordered(s: Seq<Event>)
    ensures
        in_timeline_order(timeline(s)),
    decreases s.len(),
{
    if s.len() > 0 {
        lemma_timeline_ordered(s.drop_last());
        lemma_insert_keeps_order(timeline(s.drop_last()), s.last());
    }
}

/// Ingestion law: `parse_jsonl` returns every decoded event exactly once,
/// ordered by epoch (absent counts as 0) and then sequence number; and a
/// bad line does not abort ingestion: every record yields exactly one event
/// or exactly one error.
pub proof fn law_ingestion(decoded: Seq<(usize, Result<Event, String>)>)
    ensures
        in_timeline_order(timeline(decoded_events(decoded))),
        timeline(decoded_events(decoded)).to_multiset() == decoded_events(decoded).to_multiset(),
        decoded_events(decoded).len() + decode_errors(decoded).len() == decoded.len(),
    decreases decoded.len(),
{
    lemma_timeline_ordered(decoded_events(decoded));
    lemma_timeline_permutes(decoded_events(decoded));
    if decoded.len() > 0 {
        law_ingestion(decoded.drop_last());
    }
}


} // verus!
