//! Report rendering: the terminal report (ANSI colours), the JSON report and
//! the SARIF 2.1.0 document.
use vstd::prelude::*;

use crate::correlate::{Incident, IncidentView, incident_views};
use crate::document::{field_views, json_views, pretty_json, push_field, push_item, render_pretty, Json, JsonView};
use crate::rules::{severity_label, Severity};
use crate::text::{ascii_upper, decimal, decimal_chars, joined, push_chars, push_str, string_of};

verus! {

/// The ANSI colour of a severity.
pub open spec fn color_code(s: Severity) -> Seq<char> {
    match s {
        Severity::Info => "\x1b[36m"@,
        Severity::Low => "\x1b[32m"@,
        Severity::Medium => "\x1b[33m"@,
        Severity::High => "\x1b[91m"@,
        Severity::Critical => "\x1b[1;91m"@,
    }
}

fn sev_color(s: Severity) -> (c: &'static str)
    ensures
        c@ == color_code(s),
{
    match s {
        Severity::Info => "\x1b[36m",
        Severity::Low => "\x1b[32m",
        Severity::Medium => "\x1b[33m",
        Severity::High => "\x1b[91m",
        Severity::Critical => "\x1b[1;91m",
    }
}

/// The severity tag of a report line: the upper-case name, right-aligned in
/// eight columns.
pub open spec fn severity_tag(s: Severity) -> Seq<char> {
    match s {
        Severity::Info => "    INFO"@,
        Severity::Low => "     LOW"@,
        Severity::Medium => "  MEDIUM"@,
        Severity::High => "    HIGH"@,
        Severity::Critical => "CRITICAL"@,
    }
}

fn severity_tag_of(s: Severity) -> (t: &'static str)
    ensures
        t@ == severity_tag(s),
{
    match s {
        Severity::Info => "    INFO",
        Severity::Low => "     LOW",
        Severity::Medium => "  MEDIUM",
        Severity::High => "    HIGH",
        Severity::Critical => "CRITICAL",
    }
}

/// The report banner.
pub open spec fn banner() -> Seq<char> {
    "\n┌──────────────────────────────────────────────────────────┐\n"@ + "│  LabTrace — forensic incident report                     │\n"@ + "└──────────────────────────────────────────────────────────┘\n\n"@
}

/// The line shown when nothing was correlated.
pub open spec fn nothing_line() -> Seq<char> {
    "  \x1b[32m✓ No incidents correlated.\x1b[0m\n"@
}

/// One labelled line of an incident block: two spaces, the dimmed field
/// name, a gap, the value and a newline.
pub open spec fn field_line(name: Seq<char>, gap: Seq<char>, value: Seq<char>) -> Seq<char> {
    "  "@ + "\x1b[2m"@ + name + "\x1b[0m"@ + gap + value + "\n"@
}

/// The first line of an incident block: coloured severity tag and title.
pub open spec fn heading_line(inc: IncidentView) -> Seq<char> {
    color_code(inc.severity) + "["@ + severity_tag(inc.severity) + "] "@ + inc.title + "\x1b[0m"@
        + "\n"@
}

/// The block of lines describing one incident.
pub open spec fn incident_block(inc: IncidentView) -> Seq<char> {
    heading_line(inc) + field_line("chain:"@, "   "@, inc.chain) + field_line(
        "signals:"@,
        " "@,
        joined(inc.findings, ", "@),
    ) + (if inc.taints.len() > 0 {
        field_line("taint:"@, "   "@, joined(inc.taints, ", "@))
    } else {
        Seq::<char>::empty()
    }) + field_line(
        "scope:"@,
        "   "@,
        "seq "@ + decimal(inc.seq_from as nat) + "–"@ + decimal(inc.seq_to as nat),
    ) + field_line("summary:"@, " "@, inc.summary)
}

/// The terminal report: the banner, the dimmed statistics line, then either
/// the "no incidents" line or the incident blocks separated by blank lines.
pub open spec fn terminal_text(incs: Seq<IncidentView>, stats: Seq<char>) -> Seq<char> {
    banner() + "\x1b[2m"@ + stats + "\x1b[0m"@ + "\n\n"@ + if incs.len() == 0 {
        nothing_line()
    } else {
        joined(incs.map_values(|i: IncidentView| incident_block(i)), "\n"@) + "\n"@
    }
}

/// Appends the items of `v` joined by `sep`.
fn push_joined_strings(buf: &mut Vec<char>, v: &Vec<String>, sep: &str)
    ensures
        final(buf)@ == old(buf)@ + joined(v@.map_values(|s: String| s@), sep@),
{
    let ghost its = v@.map_values(|s: String| s@);
    let mut i: usize = 0;
    while i < v.len()
        invariant
            its == v@.map_values(|s: String| s@),
            i <= v@.len(),
            buf@ == old(buf)@ + joined(its.take(i as int), sep@),
        decreases v.len() - i,
    {
        if i > 0 {
            push_str(buf, sep);
        }
        push_str(buf, v[i].as_str());
        proof {
            assert(its.take(i + 1).drop_last() =~= its.take(i as int));
            assert(its.take(i + 1).last() == v@[i as int]@);
            if i == 0 {
                assert(joined(its.take(0), sep@) =~= Seq::<char>::empty());
                assert(buf@ =~= old(buf)@ + joined(its.take(1), sep@));
            } else {
                assert(buf@ =~= old(buf)@ + joined(its.take(i + 1), sep@));
            }
        }
        i = i + 1;
    }
    assert(its.take(its.len() as int) =~= its);
}

/// Appends one labelled line.
fn push_field_line(buf: &mut Vec<char>, name: &str, gap: &str, value: &[char])
    ensures
        final(buf)@ == old(buf)@ + field_line(name@, gap@, value@),
{
    push_str(buf, "  ");
    push_str(buf, "\x1b[2m");
    push_str(buf, name);
    push_str(buf, "\x1b[0m");
    push_str(buf, gap);
    push_chars(buf, value);
    push_str(buf, "\n");
    assert(buf@ =~= old(buf)@ + field_line(name@, gap@, value@));
}

/// Appends the first line of an incident block.
fn push_heading(buf: &mut Vec<char>, inc: &Incident)
    ensures
        final(buf)@ == old(buf)@ + heading_line(inc@),
{
    push_str(buf, sev_color(inc.severity));
    push_str(buf, "[");
    push_str(buf, severity_tag_of(inc.severity));
    push_str(buf, "] ");
    push_str(buf, inc.title.as_str());
    push_str(buf, "\x1b[0m");
    push_str(buf, "\n");
    assert(buf@ =~= old(buf)@ + heading_line(inc@));
}

/// Appends the block of one incident.
fn push_block(buf: &mut Vec<char>, inc: &Incident)
    ensures
        final(buf)@ == old(buf)@ + incident_block(inc@),
{
    let ghost v = inc@;
    let ghost b0 = buf@;
    push_heading(buf, inc);
    let chain = crate::text::chars_of(inc.chain.as_str());
    push_field_line(buf, "chain:", "   ", chain.as_slice());
    let ghost b1 = buf@;
    let mut signals: Vec<char> = Vec::new();
    push_joined_strings(&mut signals, &inc.findings, ", ");
    push_field_line(buf, "signals:", " ", signals.as_slice());
    let ghost b2 = buf@;
    if inc.taints.len() > 0 {
        let mut taints: Vec<char> = Vec::new();
        push_joined_strings(&mut taints, &inc.taints, ", ");
        push_field_line(buf, "taint:", "   ", taints.as_slice());
    }
    let ghost b3 = buf@;
    assert(b3 == b2 + (if v.taints.len() > 0 {
        field_line("taint:"@, "   "@, joined(v.taints, ", "@))
    } else {
        Seq::<char>::empty()
    })) by {
        if v.taints.len() == 0 {
            assert(b3 =~= b2 + Seq::<char>::empty());
        }
    }
    let mut scope: Vec<char> = Vec::new();
    push_str(&mut scope, "seq ");
    let from = decimal_chars(inc.seq_from);
    push_chars(&mut scope, from.as_slice());
    push_str(&mut scope, "–");
    let to = decimal_chars(inc.seq_to);
    push_chars(&mut scope, to.as_slice());
    push_field_line(buf, "scope:", "   ", scope.as_slice());
    let summary = crate::text::chars_of(inc.summary.as_str());
    push_field_line(buf, "summary:", " ", summary.as_slice());
    assert(buf@ =~= b0 + incident_block(v));
}

/// The terminal report of the incidents, with a statistics line.
pub fn terminal(incidents: &[Incident], stats: &str) -> (out: String)
    ensures
        out@ == terminal_text(incident_views(incidents@), stats@),
{
    let mut buf: Vec<char> = Vec::new();
    push_str(&mut buf, "\n┌──────────────────────────────────────────────────────────┐\n");
    push_str(&mut buf, "│  LabTrace — forensic incident report                     │\n");
    push_str(&mut buf, "└──────────────────────────────────────────────────────────┘\n\n");
    push_str(&mut buf, "\x1b[2m");
    push_str(&mut buf, stats);
    push_str(&mut buf, "\x1b[0m");
    push_str(&mut buf, "\n\n");
    let ghost head = buf@;
    let ghost views = incident_views(incidents@);
    if incidents.len() == 0 {
        push_str(&mut buf, "  \x1b[32m✓ No incidents correlated.\x1b[0m\n");
        assert(buf@ =~= terminal_text(views, stats@));
        return string_of(buf.as_slice());
    }
    let ghost blocks = views.map_values(|i: IncidentView| incident_block(i));
    let mut i: usize = 0;
    while i < incidents.len()
        invariant
            views == incident_views(incidents@),
            blocks == views.map_values(|i: IncidentView| incident_block(i)),
            i <= incidents@.len(),
            buf@ == head + joined(blocks.take(i as int), "\n"@),
        decreases incidents.len() - i,
    {
        if i > 0 {
            push_str(&mut buf, "\n");
        }
        push_block(&mut buf, &incidents[i]);
        proof {
            assert(blocks.take(i + 1).drop_last() =~= blocks.take(i as int));
            assert(blocks.take(i + 1).last() == incident_block(incidents@[i as int]@));
            if i == 0 {
                assert(joined(blocks.take(0), "\n"@) =~= Seq::<char>::empty());
                assert(buf@ =~= head + joined(blocks.take(1), "\n"@));
            } else {
                assert(buf@ =~= head + joined(blocks.take(i + 1), "\n"@));
            }
        }
        i = i + 1;
    }
    assert(blocks.take(blocks.len() as int) =~= blocks);
    push_str(&mut buf, "\n");
    assert(buf@ =~= terminal_text(views, stats@));
    string_of(buf.as_slice())
}

/// The SARIF level of a severity.
pub open spec fn level_of(s: Severity) -> Seq<char> {
    match s {
        Severity::Critical | Severity::High => "error"@,
        Severity::Medium | Severity::Low => "warning"@,
        Severity::Info => "note"@,
    }
}

pub fn sarif_level(s: Severity) -> (l: &'static str)
    ensures
        l@ == level_of(s),
{
    match s {
        Severity::Critical | Severity::High => "error",
        Severity::Medium | Severity::Low => "warning",
        Severity::Info => "note",
    }
}

/// `d` padded on the left with zeros to at least `width` characters.
pub open spec fn zero_padded(d: Seq<char>, width: nat) -> Seq<char> {
    if d.len() >= width {
        d
    } else {
        Seq::new((width - d.len()) as nat, |i: int| '0') + d
    }
}

/// The SARIF rule id of the incident at position `i` (counted from 0):
/// `LT-INC-` and the 1-based number in at least three digits.
pub open spec fn sarif_rule_text(i: nat) -> Seq<char> {
    "LT-INC-"@ + zero_padded(decimal(i + 1), 3)
}

pub fn sarif_rule_id(i: usize) -> (s: String)
    requires
        i < usize::MAX,
    ensures
        s@ == sarif_rule_text(i as nat),
{
    let digits = decimal_chars((i + 1) as u64);
    let mut buf: Vec<char> = Vec::new();
    push_str(&mut buf, "LT-INC-");
    let ghost before = buf@;
    let mut pad: usize = digits.len();
    while pad < 3
        invariant
            digits.len() <= pad <= 3 || (pad == digits.len() && pad >= 3),
            buf@ == before + Seq::new((pad - digits.len()) as nat, |k: int| '0'),
        decreases 3 - pad,
    {
        buf.push('0');
        assert(Seq::new((pad + 1 - digits.len()) as nat, |k: int| '0') =~= Seq::new(
            (pad - digits.len()) as nat,
            |k: int| '0',
        ).push('0'));
        pad = pad + 1;
    }
    push_chars(&mut buf, digits.as_slice());
    assert(buf@ =~= sarif_rule_text(i as nat));
    string_of(buf.as_slice())
}

/// The SARIF message of an incident: its summary and its chain in brackets.
pub open spec fn sarif_message_text(inc: IncidentView) -> Seq<char> {
    inc.summary + " ["@ + inc.chain + "]"@
}

pub fn sarif_message(inc: &Incident) -> (s: String)
    ensures
        s@ == sarif_message_text(inc@),
{
    let mut buf: Vec<char> = Vec::new();
    push_str(&mut buf, inc.summary.as_str());
    push_str(&mut buf, " [");
    push_str(&mut buf, inc.chain.as_str());
    push_str(&mut buf, "]");
    assert(buf@ =~= sarif_message_text(inc@));
    string_of(buf.as_slice())
}

/// The statistics line of a run.
pub open spec fn stats_text(events: nat, signals: nat, flows: nat, incidents: nat) -> Seq<char> {
    decimal(events) + " events ingested · "@ + decimal(signals) + " rule signals · "@ + decimal(
        flows,
    ) + " taint flows · "@ + decimal(incidents) + " incidents"@
}

pub fn stats_line(events: usize, signals: usize, flows: usize, incidents: usize) -> (s: String)
    ensures
        s@ == stats_text(events as nat, signals as nat, flows as nat, incidents as nat),
{
    let mut buf: Vec<char> = Vec::new();
    let a = decimal_chars(events as u64);
    push_chars(&mut buf, a.as_slice());
    push_str(&mut buf, " events ingested · ");
    let b = decimal_chars(signals as u64);
    push_chars(&mut buf, b.as_slice());
    push_str(&mut buf, " rule signals · ");
    let c = decimal_chars(flows as u64);
    push_chars(&mut buf, c.as_slice());
    push_str(&mut buf, " taint flows · ");
    let d = decimal_chars(incidents as u64);
    push_chars(&mut buf, d.as_slice());
    push_str(&mut buf, " incidents");
    assert(buf@ =~= stats_text(events as nat, signals as nat, flows as nat, incidents as nat));
    string_of(buf.as_slice())
}

// ------------------------------------------------------------------------
// JSON and SARIF documents
// ------------------------------------------------------------------------

/// A JSON string.
pub open spec fn jstr(s: Seq<char>) -> JsonView {
    JsonView::Str(s)
}

/// A JSON object with one field.
pub open spec fn jobj1(k: Seq<char>, v: JsonView) -> JsonView {
    JsonView::Obj(seq![(k, v)])
}

/// A list of pids as a JSON array of numbers.
pub open spec fn num_array(s: Seq<u32>) -> JsonView {
    JsonView::Arr(s.map_values(|p: u32| JsonView::Num(p as u64)))
}

/// A list of texts as a JSON array of strings.
pub open spec fn str_array(s: Seq<Seq<char>>) -> JsonView {
    JsonView::Arr(s.map_values(|t: Seq<char>| JsonView::Str(t)))
}

/// How a severity is written in the JSON report: the name of its variant.
pub open spec fn severity_name(s: Severity) -> Seq<char> {
    match s {
        Severity::Info => "Info"@,
        Severity::Low => "Low"@,
        Severity::Medium => "Medium"@,
        Severity::High => "High"@,
        Severity::Critical => "Critical"@,
    }
}

/// An incident in the JSON report: every field, under its own name.
pub open spec fn incident_json(inc: IncidentView) -> JsonView {
    JsonView::Obj(
        seq![
            ("title"@, jstr(inc.title)),
            ("severity"@, jstr(severity_name(inc.severity))),
            ("actors"@, num_array(inc.actors)),
            ("chain"@, jstr(inc.chain)),
            ("findings"@, str_array(inc.findings)),
            ("taints"@, str_array(inc.taints)),
            ("seq_from"@, JsonView::Num(inc.seq_from)),
            ("seq_to"@, JsonView::Num(inc.seq_to)),
            ("summary"@, jstr(inc.summary)),
        ],
    )
}

/// The JSON report: tool name, version, the statistics line and the
/// incidents.
pub open spec fn json_doc(incs: Seq<IncidentView>, stats: Seq<char>) -> JsonView {
    JsonView::Obj(
        seq![
            ("tool"@, jstr("labtrace"@)),
            ("version"@, jstr("0.1.0"@)),
            ("stats"@, jstr(stats)),
            ("incidents"@, JsonView::Arr(incs.map_values(|i: IncidentView| incident_json(i)))),
        ],
    )
}

/// The SARIF rule of the incident at position `i`: its id, its title and
/// its level.
pub open spec fn sarif_rule_entry(i: nat, inc: IncidentView) -> JsonView {
    JsonView::Obj(
        seq![
            ("id"@, jstr(sarif_rule_text(i))),
            ("shortDescription"@, jobj1("text"@, jstr(inc.title))),
            ("defaultConfiguration"@, jobj1("level"@, jstr(level_of(inc.severity)))),
        ],
    )
}

/// The SARIF result of the incident at position `i`: its rule id, level,
/// message, and its severity, actors and taint kinds as properties.
pub open spec fn sarif_result_entry(i: nat, inc: IncidentView) -> JsonView {
    JsonView::Obj(
        seq![
            ("ruleId"@, jstr(sarif_rule_text(i))),
            ("level"@, jstr(level_of(inc.severity))),
            ("message"@, jobj1("text"@, jstr(sarif_message_text(inc)))),
            (
                "properties"@,
                JsonView::Obj(
                    seq![
                        ("severity"@, jstr(severity_label(inc.severity))),
                        ("actors"@, num_array(inc.actors)),
                        ("taints"@, str_array(inc.taints)),
                    ],
                ),
            ),
        ],
    )
}

/// The SARIF 2.1.0 document: one run of the tool `LabTrace`, with one rule
/// and one result per incident, in order.
pub open spec fn sarif_doc(incs: Seq<IncidentView>) -> JsonView {
    let rules = Seq::new(incs.len(), |i: int| sarif_rule_entry(i as nat, incs[i]));
    let results = Seq::new(incs.len(), |i: int| sarif_result_entry(i as nat, incs[i]));
    JsonView::Obj(
        seq![
            ("$schema"@, jstr("https://json.schemastore.org/sarif-2.1.0.json"@)),
            ("version"@, jstr("2.1.0"@)),
            (
                "runs"@,
                JsonView::Arr(
                    seq![
                        JsonView::Obj(
                            seq![
                                (
                                    "tool"@,
                                    jobj1(
                                        "driver"@,
                                        JsonView::Obj(
                                            seq![
                                                ("name"@, jstr("LabTrace"@)),
                                                ("rules"@, JsonView::Arr(rules)),
                                            ],
                                        ),
                                    ),
                                ),
                                ("results"@, JsonView::Arr(results)),
                            ],
                        ),
                    ],
                ),
            ),
        ],
    )
}

/// A JSON string of the text `s`.
fn json_text(s: &str) -> (j: Json)
    ensures
        j@ == jstr(s@),
{
    Json::Str(s.to_owned())
}

/// A JSON object with the one field `key`.
fn json_obj1(key: &str, value: Json) -> (j: Json)
    ensures
        j@ == jobj1(key@, value@),
{
    let mut fs: Vec<(String, Json)> = Vec::new();
    push_field(&mut fs, key, value);
    assert(field_views(fs@) =~= seq![(key@, value@)]);
    Json::Obj(fs)
}

/// The pids as a JSON array of numbers.
fn json_pids(v: &Vec<u32>) -> (j: Json)
    ensures
        j@ == num_array(v@),
{
    let mut items: Vec<Json> = Vec::new();
    let mut i: usize = 0;
    while i < v.len()
        invariant
            i <= v@.len(),
            json_views(items@) == v@.take(i as int).map_values(|p: u32| JsonView::Num(p as u64)),
        decreases v.len() - i,
    {
        push_item(&mut items, Json::Num(v[i] as u64));
        assert(v@.take(i + 1).map_values(|p: u32| JsonView::Num(p as u64)) =~= v@.take(
            i as int,
        ).map_values(|p: u32| JsonView::Num(p as u64)).push(JsonView::Num(v@[i as int] as u64)));
        i = i + 1;
    }
    assert(v@.take(v@.len() as int) =~= v@);
    Json::Arr(items)
}

/// The texts as a JSON array of strings.
fn json_texts(v: &Vec<String>) -> (j: Json)
    ensures
        j@ == str_array(v@.map_values(|s: String| s@)),
{
    let ghost texts = v@.map_values(|s: String| s@);
    let mut items: Vec<Json> = Vec::new();
    let mut i: usize = 0;
    while i < v.len()
        invariant
            i <= v@.len(),
            texts == v@.map_values(|s: String| s@),
            json_views(items@) == texts.take(i as int).map_values(|t: Seq<char>| JsonView::Str(t)),
        decreases v.len() - i,
    {
        push_item(&mut items, Json::Str(v[i].clone()));
        assert(texts.take(i + 1).map_values(|t: Seq<char>| JsonView::Str(t)) =~= texts.take(
            i as int,
        ).map_values(|t: Seq<char>| JsonView::Str(t)).push(JsonView::Str(texts[i as int])));
        i = i + 1;
    }
    assert(texts.take(texts.len() as int) =~= texts);
    Json::Arr(items)
}

/// The name under which the JSON report writes a severity.
fn severity_name_of(s: Severity) -> (t: &'static str)
    ensures
        t@ == severity_name(s),
{
    match s {
        Severity::Info => "Info",
        Severity::Low => "Low",
        Severity::Medium => "Medium",
        Severity::High => "High",
        Severity::Critical => "Critical",
    }
}

/// One incident of the JSON report.
fn incident_document(inc: &Incident) -> (j: Json)
    ensures
        j@ == incident_json(inc@),
{
    let mut fs: Vec<(String, Json)> = Vec::new();
    push_field(&mut fs, "title", Json::Str(inc.title.clone()));
    push_field(&mut fs, "severity", json_text(severity_name_of(inc.severity)));
    push_field(&mut fs, "actors", json_pids(&inc.actors));
    push_field(&mut fs, "chain", Json::Str(inc.chain.clone()));
    push_field(&mut fs, "findings", json_texts(&inc.findings));
    push_field(&mut fs, "taints", json_texts(&inc.taints));
    push_field(&mut fs, "seq_from", Json::Num(inc.seq_from));
    push_field(&mut fs, "seq_to", Json::Num(inc.seq_to));
    push_field(&mut fs, "summary", Json::Str(inc.summary.clone()));
    assert(field_views(fs@) =~= match incident_json(inc@) {
        JsonView::Obj(f) => f,
        _ => Seq::empty(),
    });
    Json::Obj(fs)
}

/// The JSON report as a document.
pub fn json_document(incidents: &[Incident], stats: &str) -> (d: Json)
    ensures
        d@ == json_doc(incident_views(incidents@), stats@),
{
    let ghost views = incident_views(incidents@);
    let mut items: Vec<Json> = Vec::new();
    let mut i: usize = 0;
    while i < incidents.len()
        invariant
            i <= incidents@.len(),
            views == incident_views(incidents@),
            json_views(items@) == views.take(i as int).map_values(|v: IncidentView| incident_json(v)),
        decreases incidents.len() - i,
    {
        push_item(&mut items, incident_document(&incidents[i]));
        assert(views.take(i + 1).map_values(|v: IncidentView| incident_json(v)) =~= views.take(
            i as int,
        ).map_values(|v: IncidentView| incident_json(v)).push(incident_json(views[i as int])));
        i = i + 1;
    }
    assert(views.take(views.len() as int) =~= views);
    let mut fs: Vec<(String, Json)> = Vec::new();
    push_field(&mut fs, "tool", json_text("labtrace"));
    push_field(&mut fs, "version", json_text("0.1.0"));
    push_field(&mut fs, "stats", json_text(stats));
    push_field(&mut fs, "incidents", Json::Arr(items));
    assert(field_views(fs@) =~= match json_doc(views, stats@) {
        JsonView::Obj(f) => f,
        _ => Seq::empty(),
    });
    Json::Obj(fs)
}

/// Machine-readable report: the JSON document, pretty-printed.
pub fn json(incidents: &[Incident], stats: &str) -> (s: String)
    ensures
        s@ == pretty_json(json_doc(incident_views(incidents@), stats@)),
{
    let d = json_document(incidents, stats);
    render_pretty(&d)
}

/// The SARIF rule of incident `i`.
fn sarif_rule_document(i: usize, inc: &Incident) -> (j: Json)
    requires
        i < usize::MAX,
    ensures
        j@ == sarif_rule_entry(i as nat, inc@),
{
    let mut fs: Vec<(String, Json)> = Vec::new();
    push_field(&mut fs, "id", Json::Str(sarif_rule_id(i)));
    push_field(&mut fs, "shortDescription", json_obj1("text", Json::Str(inc.title.clone())));
    push_field(&mut fs, "defaultConfiguration", json_obj1("level", json_text(sarif_level(inc.severity))));
    assert(field_views(fs@) =~= match sarif_rule_entry(i as nat, inc@) {
        JsonView::Obj(f) => f,
        _ => Seq::empty(),
    });
    Json::Obj(fs)
}

/// The SARIF result of incident `i`.
fn sarif_result_document(i: usize, inc: &Incident) -> (j: Json)
    requires
        i < usize::MAX,
    ensures
        j@ == sarif_result_entry(i as nat, inc@),
{
    let mut props: Vec<(String, Json)> = Vec::new();
    push_field(&mut props, "severity", json_text(inc.severity.label()));
    push_field(&mut props, "actors", json_pids(&inc.actors));
    push_field(&mut props, "taints", json_texts(&inc.taints));
    let ghost propsv = field_views(props@);
    assert(propsv =~= seq![
        ("severity"@, jstr(severity_label(inc.severity))),
        ("actors"@, num_array(inc@.actors)),
        ("taints"@, str_array(inc@.taints)),
    ]);
    let mut fs: Vec<(String, Json)> = Vec::new();
    push_field(&mut fs, "ruleId", Json::Str(sarif_rule_id(i)));
    push_field(&mut fs, "level", json_text(sarif_level(inc.severity)));
    push_field(&mut fs, "message", json_obj1("text", Json::Str(sarif_message(inc))));
    push_field(&mut fs, "properties", Json::Obj(props));
    assert(field_views(fs@) =~= match sarif_result_entry(i as nat, inc@) {
        JsonView::Obj(f) => f,
        _ => Seq::empty(),
    });
    Json::Obj(fs)
}

/// The SARIF 2.1.0 document of the incidents.
pub fn sarif_document(incidents: &[Incident]) -> (d: Json)
    ensures
        d@ == sarif_doc(incident_views(incidents@)),
{
    let ghost views = incident_views(incidents@);
    let mut rules: Vec<Json> = Vec::new();
    let mut results: Vec<Json> = Vec::new();
    let mut i: usize = 0;
    while i < incidents.len()
        invariant
            i <= incidents@.len(),
            views == incident_views(incidents@),
            json_views(rules@) == Seq::new(i as nat, |k: int| sarif_rule_entry(k as nat, views[k])),
            json_views(results@) == Seq::new(
                i as nat,
                |k: int| sarif_result_entry(k as nat, views[k]),
            ),
        decreases incidents.len() - i,
    {
        push_item(&mut rules, sarif_rule_document(i, &incidents[i]));
        push_item(&mut results, sarif_result_document(i, &incidents[i]));
        assert(Seq::new((i + 1) as nat, |k: int| sarif_rule_entry(k as nat, views[k])) =~= Seq::new(
            i as nat,
            |k: int| sarif_rule_entry(k as nat, views[k]),
        ).push(sarif_rule_entry(i as nat, views[i as int])));
        assert(Seq::new((i + 1) as nat, |k: int| sarif_result_entry(k as nat, views[k]))
            =~= Seq::new(i as nat, |k: int| sarif_result_entry(k as nat, views[k])).push(
            sarif_result_entry(i as nat, views[i as int]),
        ));
        i = i + 1;
    }
    let ghost rulesv = json_views(rules@);
    let ghost resultsv = json_views(results@);
    let mut driver: Vec<(String, Json)> = Vec::new();
    push_field(&mut driver, "name", json_text("LabTrace"));
    push_field(&mut driver, "rules", Json::Arr(rules));
    let mut run: Vec<(String, Json)> = Vec::new();
    push_field(&mut run, "tool", json_obj1("driver", Json::Obj(driver)));
    push_field(&mut run, "results", Json::Arr(results));
    let ghost runv = field_views(run@);
    let ghost driverv = field_views(driver@);
    let mut runs: Vec<Json> = Vec::new();
    push_item(&mut runs, Json::Obj(run));
    let mut fs: Vec<(String, Json)> = Vec::new();
    push_field(&mut fs, "$schema", json_text("https://json.schemastore.org/sarif-2.1.0.json"));
    push_field(&mut fs, "version", json_text("2.1.0"));
    push_field(&mut fs, "runs", Json::Arr(runs));
    proof {
        assert(driverv =~= seq![
            ("name"@, jstr("LabTrace"@)),
            ("rules"@, JsonView::Arr(Seq::new(views.len(), |k: int| sarif_rule_entry(k as nat, views[k])))),
        ]);
        assert(runv =~= seq![
            ("tool"@, jobj1("driver"@, JsonView::Obj(driverv))),
            ("results"@, JsonView::Arr(resultsv)),
        ]);
        assert(json_views(runs@) =~= seq![JsonView::Obj(runv)]);
    }
    assert(field_views(fs@) =~= match sarif_doc(views) {
        JsonView::Obj(f) => f,
        _ => Seq::empty(),
    });
    Json::Obj(fs)
}

/// SARIF 2.1.0 output — feeds GitHub code scanning and most SIEM parsers.
pub fn sarif(incidents: &[Incident]) -> (s: String)
    ensures
        s@ == pretty_json(sarif_doc(incident_views(incidents@))),
{
    let d = sarif_document(incidents);
    render_pretty(&d)
}

/// Severity tags: the tag of a heading is the upper-cased severity label,
/// right-aligned in eight columns; so distinct severities get distinct
/// tags.
pub proof fn law_severity_tags(s: Severity, other: Severity)
    ensures
        severity_tag(s).len() == 8,
        severity_tag(s) == Seq::new((8 - severity_label(s).len()) as nat, |i: int| ' ') + ascii_upper(
            severity_label(s),
        ),
        s != other ==> severity_tag(s) != severity_tag(other),
{
    reveal_strlit("info");
    reveal_strlit("low");
    reveal_strlit("medium");
    reveal_strlit("high");
    reveal_strlit("critical");
    reveal_strlit("    INFO");
    reveal_strlit("     LOW");
    reveal_strlit("  MEDIUM");
    reveal_strlit("    HIGH");
    reveal_strlit("CRITICAL");
    assert(severity_tag(s) =~= Seq::new((8 - severity_label(s).len()) as nat, |i: int| ' ')
        + ascii_upper(severity_label(s)));
    if s != other {
        let a = severity_tag(s);
        let b = severity_tag(other);
        assert(a[7] != b[7] || a[4] != b[4] || a[3] != b[3]);
    }
}

} // verus!
