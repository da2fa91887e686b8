//! The command/result protocol spoken with the external search engine:
//! building the newline-terminated JSON command lines, recognizing result
//! and milestone lines on the process's output, and turning result paths
//! into deduplicated search records.

use vstd::prelude::*;
use vstd::string::StringExecFns;
use crate::cancel::cancel_list_files;
use crate::cancel::CancelDecision;
use crate::cancel::CancelState;
use crate::classify::MediaKind;
use crate::dedup::DedupRegistry;
use crate::events::event_data;
use crate::events::events_data;
use crate::events::make_record;
use crate::events::record_data;
use crate::events::records_data;
use crate::events::Channel;
use crate::events::Event;
use crate::events::EventData;
use crate::events::Record;
use crate::events::RecordData;
use crate::json::spec_extract_results;
use crate::text::contains_seq;
use crate::text::contains_sub;
use crate::text::from_chars;
use crate::text::push_char;
use crate::text::to_chars;
use crate::thumb::thumb_target_spec;
use crate::thumb::thumbnail_target;

verus! {

// ---------- command serialization ----------

/// How one character is written inside a JSON string: the quote and the
/// backslash escaped, the named control characters by their short escapes,
/// the remaining control characters in the four-digit form, everything else
/// as itself.
pub open spec fn esc_seq(c: char) -> Seq<char> {
    if c == '"' {
        seq!['\\', '"']
    } else if c == '\\' {
        seq!['\\', '\\']
    } else if c == '\u{8}' {
        seq!['\\', 'b']
    } else if c == '\t' {
        seq!['\\', 't']
    } else if c == '\n' {
        seq!['\\', 'n']
    } else if c == '\u{c}' {
        seq!['\\', 'f']
    } else if c == '\r' {
        seq!['\\', 'r']
    } else if (c as u32) < 32 {
        seq!['\\', 'u', '0', '0', hex_digit(((c as u32) / 16) as int), hex_digit(
            ((c as u32) % 16) as int,
        )]
    } else {
        seq![c]
    }
}

pub open spec fn hex_digit(v: int) -> char {
    if v == 0 {
        '0'
    } else if v == 1 {
        '1'
    } else if v == 2 {
        '2'
    } else if v == 3 {
        '3'
    } else if v == 4 {
        '4'
    } else if v == 5 {
        '5'
    } else if v == 6 {
        '6'
    } else if v == 7 {
        '7'
    } else if v == 8 {
        '8'
    } else if v == 9 {
        '9'
    } else if v == 10 {
        'a'
    } else if v == 11 {
        'b'
    } else if v == 12 {
        'c'
    } else if v == 13 {
        'd'
    } else if v == 14 {
        'e'
    } else {
        'f'
    }
}

pub open spec fn json_escaped(s: Seq<char>) -> Seq<char>
    decreases s.len(),
{
    if s.len() == 0 {
        Seq::empty()
    } else {
        esc_seq(s[0]) + json_escaped(s.skip(1))
    }
}

fn hex_digit_exec(v: u32) -> (r: char)
    requires
        v < 16,
    ensures
        r == hex_digit(v as int),
{
    if v == 0 {
        '0'
    } else if v == 1 {
        '1'
    } else if v == 2 {
        '2'
    } else if v == 3 {
        '3'
    } else if v == 4 {
        '4'
    } else if v == 5 {
        '5'
    } else if v == 6 {
        '6'
    } else if v == 7 {
        '7'
    } else if v == 8 {
        '8'
    } else if v == 9 {
        '9'
    } else if v == 10 {
        'a'
    } else if v == 11 {
        'b'
    } else if v == 12 {
        'c'
    } else if v == 13 {
        'd'
    } else if v == 14 {
        'e'
    } else {
        'f'
    }
}

/// Append the JSON-escaped form of `s` to `out`.
fn append_escaped(out: &mut String, s: &str)
    ensures
        final(out)@ == old(out)@ + json_escaped(s@),
{
    let v = to_chars(s);
    let n: usize = v.len();
    let mut i: usize = 0;
    proof {
        assert(s@.skip(0) =~= s@);
    }
    while i < n
        invariant
            i <= n,
            n == v@.len(),
            v@ == s@,
            out@ + json_escaped(s@.skip(i as int)) == old(out)@ + json_escaped(s@),
        decreases n - i,
    {
        let c = v[i];
        let ghost pre = out@;
        if c == '"' {
            push_char(out, '\\');
            push_char(out, '"');
        } else if c == '\\' {
            push_char(out, '\\');
            push_char(out, '\\');
        } else if c == '\u{8}' {
            push_char(out, '\\');
            push_char(out, 'b');
        } else if c == '\t' {
            push_char(out, '\\');
            push_char(out, 't');
        } else if c == '\n' {
            push_char(out, '\\');
            push_char(out, 'n');
        } else if c == '\u{c}' {
            push_char(out, '\\');
            push_char(out, 'f');
        } else if c == '\r' {
            push_char(out, '\\');
            push_char(out, 'r');
        } else if (c as u32) < 32 {
            push_char(out, '\\');
            push_char(out, 'u');
            push_char(out, '0');
            push_char(out, '0');
            push_char(out, hex_digit_exec((c as u32) / 16));
            push_char(out, hex_digit_exec((c as u32) % 16));
        } else {
            push_char(out, c);
        }
        proof {
            assert(out@ =~= pre + esc_seq(s@[i as int]));
            assert(s@.skip(i as int)[0] == s@[i as int]);
            assert(s@.skip(i as int).skip(1) =~= s@.skip(i + 1 as int));
            assert(json_escaped(s@.skip(i as int)) == esc_seq(s@[i as int]) + json_escaped(
                s@.skip(i + 1 as int),
            ));
            assert(out@ + json_escaped(s@.skip(i + 1 as int)) =~= pre + json_escaped(
                s@.skip(i as int),
            ));
        }
        i += 1;
    }
    proof {
        assert(s@.skip(n as int) =~= Seq::<char>::empty());
        assert(json_escaped(Seq::<char>::empty()) == Seq::<char>::empty());
        assert(out@ =~= out@ + json_escaped(s@.skip(n as int)));
    }
}

/// The search command for a query, as one JSON line (without the newline
/// that the writer appends).
pub open spec fn search_command_spec(q: Seq<char>) -> Seq<char> {
    "{\"search_data\":\""@ + json_escaped(q) + "\"}"@
}

pub fn search_command(query: &str) -> (r: String)
    ensures
        r@ == search_command_spec(query@),
{
    let mut out = String::new().concat("{\"search_data\":\"");
    append_escaped(&mut out, query);
    let out = out.concat("\"}");
    proof {
        assert(out@ =~= search_command_spec(query@));
    }
    out
}

/// The quoted strings of a JSON array, joined by commas.
pub open spec fn json_strings_joined(paths: Seq<Seq<char>>) -> Seq<char>
    decreases paths.len(),
{
    if paths.len() == 0 {
        Seq::empty()
    } else if paths.len() == 1 {
        "\""@ + json_escaped(paths[0]) + "\""@
    } else {
        "\""@ + json_escaped(paths[0]) + "\""@ + ","@ + json_strings_joined(paths.skip(1))
    }
}

/// The argument the external indexer is started with: re-index everything
/// under the configured root paths.
pub open spec fn start_args_spec(paths: Seq<Seq<char>>) -> Seq<char> {
    "{\"index\":true,\"priority_paths\":["@ + json_strings_joined(paths) + "]}"@
}

pub fn start_python_args(priority_paths: &Vec<String>) -> (r: String)
    ensures
        r@ == start_args_spec(priority_paths.deep_view()),
{
    let ghost pd = priority_paths.deep_view();
    let mut out = String::new().concat("{\"index\":true,\"priority_paths\":[");
    let ghost lit = "{\"index\":true,\"priority_paths\":["@;
    let mut i: usize = 0;
    proof {
        reveal_strlit("\"");
        reveal_strlit(",");
        assert(pd.skip(0) =~= pd);
        crate::text::lemma_string_vec_deep_view(priority_paths);
    }
    while i < priority_paths.len()
        invariant
            i <= priority_paths@.len(),
            pd == priority_paths.deep_view(),
            out@ + json_strings_joined(pd.skip(i as int)) == lit + json_strings_joined(pd),
        decreases priority_paths@.len() - i,
    {
        proof {
            reveal_strlit("\"");
            reveal_strlit(",");
        }
        proof {
            crate::text::lemma_string_vec_deep_view(priority_paths);
            assert(pd.skip(i as int)[0] == pd[i as int]);
            assert(pd.skip(i as int).skip(1) =~= pd.skip(i + 1 as int));
        }
        let ghost pre = out@;
        push_char(&mut out, '"');
        append_escaped(&mut out, priority_paths[i].as_str());
        push_char(&mut out, '"');
        if i + 1 < priority_paths.len() {
            push_char(&mut out, ',');
            proof {
                assert(pd.skip(i as int).len() >= 2);
                assert(json_strings_joined(pd.skip(i as int)) == "\""@ + json_escaped(
                    pd[i as int],
                ) + "\""@ + ","@ + json_strings_joined(pd.skip(i + 1 as int)));
                assert(out@ =~= pre + "\""@ + json_escaped(pd[i as int]) + "\""@ + ","@);
                assert(out@ + json_strings_joined(pd.skip(i + 1 as int)) =~= pre
                    + json_strings_joined(pd.skip(i as int)));
            }
        } else {
            proof {
                assert(pd.skip(i as int).len() == 1);
                assert(json_strings_joined(pd.skip(i as int)) == "\""@ + json_escaped(
                    pd[i as int],
                ) + "\""@);
                assert(out@ =~= pre + "\""@ + json_escaped(pd[i as int]) + "\""@);
                assert(pd.skip(i + 1 as int) =~= Seq::<Seq<char>>::empty());
                assert(json_strings_joined(Seq::<Seq<char>>::empty()) == Seq::<char>::empty());
                assert(out@ + json_strings_joined(pd.skip(i + 1 as int)) =~= pre
                    + json_strings_joined(pd.skip(i as int)));
            }
        }
        i += 1;
    }
    proof {
        assert(pd.skip(priority_paths@.len() as int) =~= Seq::<Seq<char>>::empty());
        assert(json_strings_joined(Seq::<Seq<char>>::empty()) == Seq::<char>::empty());
        assert(out@ =~= lit + json_strings_joined(pd));
    }
    let out = out.concat("]}");
    proof {
        assert(out@ =~= start_args_spec(pd));
    }
    out
}

// ---------- output lines ----------

/// Milestone lines are forwarded verbatim as indexer status.
pub open spec fn is_milestone(line: Seq<char>) -> bool {
    contains_seq(line, "Starting Index process"@) || contains_seq(line, "Index Completed"@)
}

/// The search records for the paths of one result line, deduplicated in
/// order against (and recorded into) the registry.
pub open spec fn search_records(paths: Seq<Seq<char>>, dir: Seq<char>, reg: Set<Seq<char>>) -> (
    Seq<RecordData>,
    Set<Seq<char>>,
)
    decreases paths.len(),
{
    if paths.len() == 0 {
        (Seq::empty(), reg)
    } else {
        let p = paths[0];
        if reg.contains(p) {
            search_records(paths.skip(1), dir, reg)
        } else {
            let rec = RecordData {
                file_path: p,
                thumbnail_path: thumb_target_spec(dir, p),
                kind: MediaKind::Image,
                is_search_result: true,
            };
            let rest = search_records(paths.skip(1), dir, reg.insert(p));
            (seq![rec] + rest.0, rest.1)
        }
    }
}

/// What one line of the process's output amounts to.
pub open spec fn output_line_spec(line: Seq<char>, dir: Seq<char>, reg: Set<Seq<char>>) -> (
    Seq<EventData>,
    Set<Seq<char>>,
) {
    match spec_extract_results(line) {
        Some(paths) => {
            let (recs, reg2) = search_records(paths, dir, reg);
            if recs.len() > 0 {
                (
                    seq![EventData::Batch { channel: Channel::SearchedResult, records: recs }],
                    reg2,
                )
            } else {
                (Seq::empty(), reg2)
            }
        },
        None => {
            if is_milestone(line) {
                (seq![EventData::Text { channel: Channel::IndexStatus, message: line }], reg)
            } else {
                (Seq::empty(), reg)
            }
        },
    }
}

fn search_paths_records(
    paths: &Vec<String>,
    j: usize,
    thumb_dir: &str,
    registry: &mut DedupRegistry,
    out: &mut Vec<Record>,
)
    requires
        j <= paths@.len(),
    ensures
        ({
            let (rs, reg2) = search_records(
                paths.deep_view().skip(j as int),
                thumb_dir@,
                old(registry)@,
            );
            &&& records_data(final(out)@) == records_data(old(out)@) + rs
            &&& final(registry)@ == reg2
            &&& final(out)@.len() >= old(out)@.len()
            &&& (forall|k: int| 0 <= k < old(out)@.len() ==> #[trigger] final(out)@[k] == old(
                out,
            )@[k])
            &&& (forall|k: int|
                old(out)@.len() <= k < final(out)@.len() ==> crate::events::record_id_shaped(
                    #[trigger] final(out)@[k],
                ))
        }),
    decreases paths@.len() - j,
{
    let ghost pd = paths.deep_view();
    let ghost rest = pd.skip(j as int);
    if j == paths.len() {
        proof {
            assert(rest =~= Seq::<Seq<char>>::empty());
            assert(records_data(out@) + Seq::<RecordData>::empty() =~= records_data(out@));
        }
        return ;
    }
    proof {
        crate::text::lemma_string_vec_deep_view(paths);
        assert(rest[0] == pd[j as int]);
        assert(rest.skip(1) =~= pd.skip(j + 1 as int));
    }
    let p = &paths[j];
    let fresh = registry.insert_if_absent(p.as_str());
    if !fresh {
        proof {
            assert(registry@ =~= old(registry)@);
        }
        search_paths_records(paths, j + 1, thumb_dir, registry, out);
    } else {
        let target = thumbnail_target(thumb_dir, p.as_str());
        let rec = make_record(p.as_str(), target.as_str(), MediaKind::Image, true);
        let ghost out_mid = out@;
        out.push(rec);
        proof {
            assert(records_data(out@) =~= records_data(out_mid).push(record_data(rec)));
        }
        search_paths_records(paths, j + 1, thumb_dir, registry, out);
        proof {
            let (rs, _reg2) = search_records(rest, thumb_dir@, old(registry)@);
            let (rs_rest, _r2) = search_records(
                rest.skip(1),
                thumb_dir@,
                old(registry)@.insert(pd[j as int]),
            );
            assert(rs == seq![
                RecordData {
                    file_path: pd[j as int],
                    thumbnail_path: thumb_target_spec(thumb_dir@, pd[j as int]),
                    kind: MediaKind::Image,
                    is_search_result: true,
                },
            ] + rs_rest);
            assert(records_data(out@) =~= records_data(old(out)@) + rs);
        }
    }
}

/// Handle one line of the external process's output: a result line becomes
/// at most one batch of deduplicated search records, a milestone line is
/// forwarded as indexer status, anything else is dropped.
pub fn handle_output_line(line: &str, thumb_dir: &str, registry: &mut DedupRegistry) -> (events:
    Vec<Event>)
    ensures
        ({
            let (evs, reg2) = output_line_spec(line@, thumb_dir@, old(registry)@);
            &&& events_data(events@) == evs
            &&& final(registry)@ == reg2
        }),
        crate::events::events_ids_shaped(events@),
{
    let mut events: Vec<Event> = Vec::new();
    match crate::json::parse_result_line(line) {
        Some(paths) => {
            let mut recs: Vec<Record> = Vec::new();
            proof {
                assert(paths.deep_view().skip(0) =~= paths.deep_view());
                assert(records_data(Seq::<Record>::empty()) =~= Seq::<RecordData>::empty());
            }
            search_paths_records(&paths, 0, thumb_dir, registry, &mut recs);
            proof {
                let (rs, _r) = search_records(paths.deep_view(), thumb_dir@, old(registry)@);
                assert(records_data(recs@) =~= Seq::<RecordData>::empty() + rs);
                assert(records_data(recs@) =~= rs);
            }
            if recs.len() > 0 {
                let ev = Event::Batch { channel: Channel::SearchedResult, records: recs };
                events.push(ev);
                proof {
                    assert(events_data(events@) =~= seq![event_data(ev)]);
                }
            } else {
                proof {
                    assert(events_data(events@) =~= Seq::<EventData>::empty());
                }
            }
        },
        None => {
            let milestone = contains_sub(line, "Starting Index process") || contains_sub(
                line,
                "Index Completed",
            );
            if milestone {
                let msg = from_chars(&to_chars(line));
                let ev = Event::Text { channel: Channel::IndexStatus, message: msg };
                events.push(ev);
                proof {
                    assert(events_data(events@) =~= seq![event_data(ev)]);
                }
            } else {
                proof {
                    assert(events_data(events@) =~= Seq::<EventData>::empty());
                }
            }
        },
    }
    events
}

/// Law: one result line never yields two records for one path: a duplicate
/// within the line is dropped by the same registry that screens paths
/// already emitted before the line arrived.
pub proof fn lemma_search_records_dedup(paths: Seq<Seq<char>>, dir: Seq<char>, reg: Set<Seq<char>>)
    ensures
        ({
            let (rs, reg2) = search_records(paths, dir, reg);
            &&& forall|i: int| 0 <= i < rs.len() ==> !reg.contains((#[trigger] rs[i]).file_path)
            &&& forall|i: int, j: int|
                0 <= i < j < rs.len() ==> (#[trigger] rs[i]).file_path != (
                #[trigger] rs[j]).file_path
            &&& forall|i: int| 0 <= i < rs.len() ==> reg2.contains((#[trigger] rs[i]).file_path)
            &&& reg.subset_of(reg2)
        }),
    decreases paths.len(),
{
    if paths.len() == 0 {
    } else {
        let p = paths[0];
        if reg.contains(p) {
            lemma_search_records_dedup(paths.skip(1), dir, reg);
        } else {
            lemma_search_records_dedup(paths.skip(1), dir, reg.insert(p));
            let (rest, reg2) = search_records(paths.skip(1), dir, reg.insert(p));
            let (rs, _r2) = search_records(paths, dir, reg);
            assert(rs[0].file_path == p);
            assert(forall|i: int| 1 <= i < rs.len() ==> rs[i] == rest[i - 1]);
            assert(reg2.contains(p)) by {
                assert(reg.insert(p).subset_of(reg2));
            }
        }
    }
}

// ---------- the search request ----------

/// The Unicode White_Space characters: what trimming a query strips. This
/// is the set `char::is_whitespace` documents, wider than the protocol's
/// own line whitespace.
pub open spec fn trim_ws_char(c: char) -> bool {
    let u = c as u32;
    ||| u == 0x09
    ||| u == 0x0A
    ||| u == 0x0B
    ||| u == 0x0C
    ||| u == 0x0D
    ||| u == 0x20
    ||| u == 0x85
    ||| u == 0xA0
    ||| u == 0x1680
    ||| (0x2000 <= u && u <= 0x200A)
    ||| u == 0x2028
    ||| u == 0x2029
    ||| u == 0x202F
    ||| u == 0x205F
    ||| u == 0x3000
}

fn is_trim_ws(c: char) -> (r: bool)
    ensures
        r == trim_ws_char(c),
{
    let u = c as u32;
    u == 0x09 || u == 0x0A || u == 0x0B || u == 0x0C || u == 0x0D || u == 0x20 || u == 0x85 || u
        == 0xA0 || u == 0x1680 || (0x2000 <= u && u <= 0x200A) || u == 0x2028 || u == 0x2029 || u
        == 0x202F || u == 0x205F || u == 0x3000
}

/// A query counts when trimming does not empty it: anything outside
/// Unicode whitespace is in it.
pub open spec fn has_content(q: Seq<char>) -> bool {
    exists|i: int| 0 <= i < q.len() && !trim_ws_char(#[trigger] q[i])
}

/// A search request: cancel any in-flight discovery, clear the registry so
/// results may re-emit anything, build the command line, and tell the
/// presentation layer that a new result set starts. A blank query is a
/// no-op.
pub fn search_indexed_data(
    query: &str,
    registry: &mut DedupRegistry,
    state: &mut CancelState,
) -> (r: Option<(String, Vec<Event>, CancelDecision)>)
    ensures
        (r is Some) == has_content(query@),
        r is None ==> final(registry)@ == old(registry)@ && *final(state) == *old(state),
        (r matches Some(t) ==> {
            &&& t.0@ == search_command_spec(query@)
            &&& events_data(t.1@) == seq![
                EventData::Text {
                    channel: Channel::StatusUpdate,
                    message: "Searching for: "@ + query@,
                },
                EventData::Text {
                    channel: Channel::RemoveAllData,
                    message: "Searching for: "@ + query@,
                },
            ]
            &&& final(registry)@ == Set::<Seq<char>>::empty()
            &&& (*old(state) is Running ==> *final(state) is Cancelling && t.2 is BeginWait)
            &&& (*old(state) is Cancelling ==> *final(state) is Cancelling
                && t.2 is AlreadyCancelling)
            &&& (*old(state) is Idle ==> *final(state) is Idle && t.2 is NothingRunning)
        }),
{
    let chars = to_chars(query);
    let mut blank = true;
    let mut i: usize = 0;
    while i < chars.len()
        invariant
            i <= chars@.len(),
            chars@ == query@,
            blank == !(exists|j: int| 0 <= j < i && !trim_ws_char(#[trigger] query@[j])),
        decreases chars@.len() - i,
    {
        let c = chars[i];
        if !is_trim_ws(c) {
            blank = false;
        }
        i += 1;
    }
    if blank {
        return None;
    }
    let decision = cancel_list_files(state);
    registry.clear();
    let command = search_command(query);
    let msg1 = String::new().concat("Searching for: ").concat(query);
    let msg2 = msg1.clone();
    let ev1 = Event::Text { channel: Channel::StatusUpdate, message: msg1 };
    let ev2 = Event::Text { channel: Channel::RemoveAllData, message: msg2 };
    let mut events: Vec<Event> = Vec::new();
    events.push(ev1);
    events.push(ev2);
    proof {
        assert(events_data(events@) =~= seq![event_data(ev1), event_data(ev2)]);
    }
    Some((command, events, decision))
}

} // verus!
