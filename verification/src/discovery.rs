//! The cancellable discovery scheduler. Given the scan roots (with the
//! files a directory walk found under each), it classifies the files,
//! deduplicates them against the registry, pairs each kept file with its
//! thumbnail location, and emits the results in fixed-size batches, one
//! status event per root and a terminal status event when every root was
//! processed.
//!
//! Cancellation is cooperative and polled: before each root, before each
//! chunk, before each file, and before a batch is emitted. A positive check
//! at root, chunk or emission granularity emits one "discovery cancelled"
//! control event and ends the run; a positive check at file granularity
//! only skips that file, so a chunk already in flight completes, though its
//! batch is then suppressed. The moment the request lands is a parameter:
//! the number of polls that observe a clear flag before the flag reads set
//! (None for a run that is never cancelled).

use vstd::prelude::*;
use vstd::string::StringExecFns;
use crate::classify::classify_path;
use crate::classify::media_kind_of;
use crate::classify::MediaKind;
use crate::dedup::DedupRegistry;
use crate::events::event_data;
use crate::events::event_ids_shaped;
use crate::events::events_data;
use crate::events::events_ids_shaped;
use crate::events::record_id_shaped;
use crate::events::make_record;
use crate::events::record_data;
use crate::events::records_data;
use crate::events::Channel;
use crate::events::Event;
use crate::events::EventData;
use crate::events::Record;
use crate::events::RecordData;
use crate::text::sort_seqs;
use crate::text::sort_strings;
use crate::thumb::thumb_target_spec;
use crate::thumb::thumbnail_target;

verus! {

/// One scan root and the files a directory walk found under it.
pub struct RootFiles {
    pub root: String,
    pub files: Vec<String>,
}

pub open spec fn root_files_data(r: RootFiles) -> (Seq<char>, Seq<Seq<char>>) {
    (r.root@, r.files.deep_view())
}

pub open spec fn roots_data(v: Seq<RootFiles>) -> Seq<(Seq<char>, Seq<Seq<char>>)> {
    v.map_values(|r: RootFiles| root_files_data(r))
}

// ---------- the cancellation clock ----------

/// Whether a poll observes the cancellation flag set: the countdown of
/// clear polls has reached zero.
pub open spec fn poll_hit(ca: Option<usize>) -> bool {
    ca == Some(0usize)
}

/// The countdown after one poll: a pending request comes one poll closer;
/// an observed one stays observed; no request stays none.
pub open spec fn poll_next(ca: Option<usize>) -> Option<usize> {
    match ca {
        None => None,
        Some(r) => if r == 0 {
            Some(0usize)
        } else {
            Some((r - 1) as usize)
        },
    }
}

fn poll(ca: &mut Option<usize>) -> (r: bool)
    ensures
        r == poll_hit(*old(ca)),
        *final(ca) == poll_next(*old(ca)),
{
    match *ca {
        None => false,
        Some(rem) => {
            if rem == 0 {
                true
            } else {
                *ca = Some(rem - 1);
                false
            }
        },
    }
}

// ---------- the events the scheduler emits ----------

pub open spec fn status_event(message: Seq<char>) -> EventData {
    EventData::Text { channel: Channel::StatusUpdate, message }
}

pub open spec fn fetching_event(root: Seq<char>) -> EventData {
    status_event("Fetching data from: "@ + root)
}

pub open spec fn cancelled_event() -> EventData {
    EventData::Text {
        channel: Channel::RemoveAllData,
        message: "File listing operation cancelled"@,
    }
}

pub open spec fn completed_event() -> EventData {
    status_event("File listing completed"@)
}

pub open spec fn batch_event(records: Seq<RecordData>) -> EventData {
    EventData::Batch { channel: Channel::FilePath, records }
}

/// The record built for a kept file.
pub open spec fn discovery_record(dir: Seq<char>, f: Seq<char>) -> RecordData {
    RecordData {
        file_path: f,
        thumbnail_path: thumb_target_spec(dir, f),
        kind: media_kind_of(f),
        is_search_result: false,
    }
}

// ---------- the run, at the specification level ----------

/// The registry contents and the cancellation countdown, threaded through
/// the run.
pub struct RunState {
    pub reg: Set<Seq<char>>,
    pub ca: Option<usize>,
}

/// The records one chunk produces: per file one poll; a file skipped on a
/// positive poll, on an identity already registered, or on an unknown kind;
/// anything else is registered and becomes a record.
pub open spec fn chunk_records(files: Seq<Seq<char>>, dir: Seq<char>, st: RunState) -> (
    Seq<RecordData>,
    RunState,
)
    decreases files.len(),
{
    if files.len() == 0 {
        (Seq::empty(), st)
    } else {
        let f = files[0];
        let stepped = RunState { reg: st.reg, ca: poll_next(st.ca) };
        if poll_hit(st.ca) || st.reg.contains(f) || media_kind_of(f) is Unknown {
            chunk_records(files.skip(1), dir, stepped)
        } else {
            let rest = chunk_records(
                files.skip(1),
                dir,
                RunState { reg: st.reg.insert(f), ca: poll_next(st.ca) },
            );
            (seq![discovery_record(dir, f)] + rest.0, rest.1)
        }
    }
}

/// How many files the next chunk takes.
pub open spec fn chunk_take(len: nat, chunk: nat) -> nat {
    let step: nat = if chunk == 0 {
        1
    } else {
        chunk
    };
    if step <= len {
        step
    } else {
        len
    }
}

/// One root's sorted files, chunk by chunk: a poll before each chunk and a
/// poll before each non-empty batch is emitted; a positive one emits the
/// cancelled control event and ends the run.
pub open spec fn run_chunks(files: Seq<Seq<char>>, dir: Seq<char>, st: RunState, chunk: nat) -> (
    Seq<EventData>,
    RunState,
    bool,
)
    decreases files.len(),
{
    if files.len() == 0 {
        (Seq::empty(), st, false)
    } else if poll_hit(st.ca) {
        (seq![cancelled_event()], RunState { reg: st.reg, ca: poll_next(st.ca) }, true)
    } else {
        let c = chunk_take(files.len(), chunk);
        let (recs, st2) = chunk_records(
            files.take(c as int),
            dir,
            RunState { reg: st.reg, ca: poll_next(st.ca) },
        );
        if recs.len() > 0 {
            if poll_hit(st2.ca) {
                (
                    seq![cancelled_event()],
                    RunState { reg: st2.reg, ca: poll_next(st2.ca) },
                    true,
                )
            } else {
                let rest = run_chunks(
                    files.skip(c as int),
                    dir,
                    RunState { reg: st2.reg, ca: poll_next(st2.ca) },
                    chunk,
                );
                (seq![batch_event(recs)] + rest.0, rest.1, rest.2)
            }
        } else {
            let rest = run_chunks(files.skip(c as int), dir, st2, chunk);
            (rest.0, rest.1, rest.2)
        }
    }
}

/// The roots in order: a poll before each; a positive one emits the
/// cancelled control event and ends the run; otherwise one status event
/// naming the root, then its files, sorted, chunk by chunk.
pub open spec fn run_roots(
    roots: Seq<(Seq<char>, Seq<Seq<char>>)>,
    dir: Seq<char>,
    st: RunState,
    chunk: nat,
) -> (Seq<EventData>, RunState, bool)
    decreases roots.len(),
{
    if roots.len() == 0 {
        (Seq::empty(), st, false)
    } else if poll_hit(st.ca) {
        (seq![cancelled_event()], RunState { reg: st.reg, ca: poll_next(st.ca) }, true)
    } else {
        let (root, files) = roots[0];
        let (evs, st2, cc) = run_chunks(
            sort_seqs(files),
            dir,
            RunState { reg: st.reg, ca: poll_next(st.ca) },
            chunk,
        );
        if cc {
            (seq![fetching_event(root)] + evs, st2, true)
        } else {
            let rest = run_roots(roots.skip(1), dir, st2, chunk);
            (seq![fetching_event(root)] + evs + rest.0, rest.1, rest.2)
        }
    }
}

/// Everything one discovery run emits, the registry it leaves behind, and
/// whether it was cancelled.
pub open spec fn discovery_spec(
    roots: Seq<(Seq<char>, Seq<Seq<char>>)>,
    dir: Seq<char>,
    reg: Set<Seq<char>>,
    ca: Option<usize>,
    chunk: nat,
) -> (Seq<EventData>, Set<Seq<char>>, bool) {
    let (evs, st, cc) = run_roots(roots, dir, RunState { reg, ca }, chunk);
    if cc {
        (evs, st.reg, true)
    } else {
        (evs + seq![completed_event()], st.reg, false)
    }
}

// ---------- the run, executed ----------

proof fn lemma_events_data_push(s: Seq<Event>, e: Event)
    ensures
        events_data(s.push(e)) == events_data(s).push(event_data(e)),
{
    assert(events_data(s.push(e)) =~= events_data(s).push(event_data(e)));
}

proof fn lemma_records_data_push(s: Seq<Record>, r: Record)
    ensures
        records_data(s.push(r)) == records_data(s).push(record_data(r)),
{
    assert(records_data(s.push(r)) =~= records_data(s).push(record_data(r)));
}

/// The files of one chunk: `files[j..end]`.
fn do_chunk_files(
    files: &Vec<String>,
    j: usize,
    end: usize,
    thumb_dir: &str,
    registry: &mut DedupRegistry,
    ca: &mut Option<usize>,
    out: &mut Vec<Record>,
)
    requires
        j <= end <= files@.len(),
    ensures
        ({
            let (rs, st2) = chunk_records(
                files.deep_view().subrange(j as int, end as int),
                thumb_dir@,
                RunState { reg: old(registry)@, ca: *old(ca) },
            );
            &&& records_data(final(out)@) == records_data(old(out)@) + rs
            &&& final(registry)@ == st2.reg
            &&& *final(ca) == st2.ca
            &&& final(out)@.len() >= old(out)@.len()
            &&& (forall|k: int| 0 <= k < old(out)@.len() ==> #[trigger] final(out)@[k] == old(
                out,
            )@[k])
            &&& (forall|k: int|
                old(out)@.len() <= k < final(out)@.len() ==> record_id_shaped(
                    #[trigger] final(out)@[k],
                ))
        }),
    decreases end - j,
{
    let ghost dv = files.deep_view();
    let ghost part = dv.subrange(j as int, end as int);
    if j == end {
        proof {
            assert(part =~= Seq::<Seq<char>>::empty());
            assert(records_data(out@) + Seq::<RecordData>::empty() =~= records_data(out@));
        }
        return ;
    }
    proof {
        crate::text::lemma_string_vec_deep_view(files);
        assert(part[0] == dv[j as int]);
        assert(part.skip(1) =~= dv.subrange(j + 1 as int, end as int));
    }
    let f = &files[j];
    let hit = poll(ca);
    let skip_file: bool = if hit {
        true
    } else if registry.contains_id(f.as_str()) {
        true
    } else {
        false
    };
    if skip_file {
        do_chunk_files(files, j + 1, end, thumb_dir, registry, ca, out);
        return ;
    }
    let kind = classify_path(f.as_str());
    match kind {
        MediaKind::Unknown => {
            do_chunk_files(files, j + 1, end, thumb_dir, registry, ca, out);
        },
        _ => {
            let inserted = registry.insert_if_absent(f.as_str());
            let target = thumbnail_target(thumb_dir, f.as_str());
            let rec = make_record(f.as_str(), target.as_str(), kind, false);
            let ghost out_mid = out@;
            out.push(rec);
            proof {
                lemma_records_data_push(out_mid, rec);
                assert(record_data(rec) == discovery_record(thumb_dir@, dv[j as int]));
            }
            do_chunk_files(files, j + 1, end, thumb_dir, registry, ca, out);
            proof {
                let st_in = RunState { reg: old(registry)@, ca: *old(ca) };
                let (rs, st2) = chunk_records(part, thumb_dir@, st_in);
                let (rs_rest, _st3) = chunk_records(
                    part.skip(1),
                    thumb_dir@,
                    RunState {
                        reg: st_in.reg.insert(dv[j as int]),
                        ca: poll_next(st_in.ca),
                    },
                );
                assert(rs == seq![discovery_record(thumb_dir@, dv[j as int])] + rs_rest);
                assert(records_data(out@) =~= records_data(old(out)@) + rs);
            }
        },
    }
}

/// One root's sorted files, chunk by chunk, from `files[j..]`.
fn do_chunks(
    files: &Vec<String>,
    j: usize,
    thumb_dir: &str,
    chunk_size: usize,
    registry: &mut DedupRegistry,
    ca: &mut Option<usize>,
    events: &mut Vec<Event>,
) -> (cancelled: bool)
    requires
        j <= files@.len(),
        chunk_size >= 1,
    ensures
        ({
            let (evs, st2, cc) = run_chunks(
                files.deep_view().skip(j as int),
                thumb_dir@,
                RunState { reg: old(registry)@, ca: *old(ca) },
                chunk_size as nat,
            );
            &&& events_data(final(events)@) == events_data(old(events)@) + evs
            &&& final(registry)@ == st2.reg
            &&& *final(ca) == st2.ca
            &&& cancelled == cc
            &&& final(events)@.len() >= old(events)@.len()
            &&& (forall|k: int|
                0 <= k < old(events)@.len() ==> #[trigger] final(events)@[k] == old(events)@[k])
            &&& (forall|k: int|
                old(events)@.len() <= k < final(events)@.len() ==> event_ids_shaped(
                    #[trigger] final(events)@[k],
                ))
        }),
    decreases files@.len() - j,
{
    let ghost dv = files.deep_view();
    let ghost rest_files = dv.skip(j as int);
    let n: usize = files.len();
    if j == n {
        proof {
            assert(rest_files =~= Seq::<Seq<char>>::empty());
            assert(events_data(events@) + Seq::<EventData>::empty() =~= events_data(events@));
        }
        return false;
    }
    let hit = poll(ca);
    if hit {
        let msg = chars_string("File listing operation cancelled");
        let ev = Event::Text { channel: Channel::RemoveAllData, message: msg };
        let ghost evs_mid = events@;
        events.push(ev);
        proof {
            lemma_events_data_push(evs_mid, ev);
            assert(event_data(ev) == cancelled_event());
            assert(events_data(events@) =~= events_data(old(events)@) + seq![cancelled_event()]);
        }
        return true;
    }
    let c: usize = if chunk_size <= n - j {
        chunk_size
    } else {
        n - j
    };
    proof {
        assert(chunk_take(rest_files.len(), chunk_size as nat) == c as nat);
        assert(rest_files.take(c as int) =~= dv.subrange(j as int, (j + c) as int));
    }
    let mut recs: Vec<Record> = Vec::new();
    do_chunk_files(files, j, j + c, thumb_dir, registry, ca, &mut recs);
    proof {
        assert(records_data(Seq::<Record>::empty()) =~= Seq::<RecordData>::empty());
        assert(Seq::<RecordData>::empty() + chunk_records(
            rest_files.take(c as int),
            thumb_dir@,
            RunState { reg: old(registry)@, ca: poll_next(*old(ca)) },
        ).0 =~= chunk_records(
            rest_files.take(c as int),
            thumb_dir@,
            RunState { reg: old(registry)@, ca: poll_next(*old(ca)) },
        ).0);
    }
    let ghost st2 = chunk_records(
        rest_files.take(c as int),
        thumb_dir@,
        RunState { reg: old(registry)@, ca: poll_next(*old(ca)) },
    ).1;
    if recs.len() > 0 {
        let hit2 = poll(ca);
        if hit2 {
            let msg = chars_string("File listing operation cancelled");
            let ev = Event::Text { channel: Channel::RemoveAllData, message: msg };
            let ghost evs_mid = events@;
            events.push(ev);
            proof {
                lemma_events_data_push(evs_mid, ev);
                assert(events_data(events@) =~= events_data(old(events)@) + seq![
                    cancelled_event(),
                ]);
            }
            return true;
        }
        let ev = Event::Batch { channel: Channel::FilePath, records: recs };
        let ghost evs_mid = events@;
        events.push(ev);
        proof {
            lemma_events_data_push(evs_mid, ev);
        }
        let cc = do_chunks(files, j + c, thumb_dir, chunk_size, registry, ca, events);
        proof {
            assert(rest_files.skip(c as int) =~= dv.skip((j + c) as int));
            let whole = run_chunks(
                rest_files,
                thumb_dir@,
                RunState { reg: old(registry)@, ca: *old(ca) },
                chunk_size as nat,
            );
            assert(events_data(events@) =~= events_data(old(events)@) + whole.0);
        }
        cc
    } else {
        let cc = do_chunks(files, j + c, thumb_dir, chunk_size, registry, ca, events);
        proof {
            assert(rest_files.skip(c as int) =~= dv.skip((j + c) as int));
            let whole = run_chunks(
                rest_files,
                thumb_dir@,
                RunState { reg: old(registry)@, ca: *old(ca) },
                chunk_size as nat,
            );
            assert(events_data(events@) =~= events_data(old(events)@) + whole.0);
        }
        cc
    }
}

/// A fresh String with the characters of `s`.
fn chars_string(s: &str) -> (r: String)
    ensures
        r@ == s@,
{
    crate::text::from_chars(&crate::text::to_chars(s))
}

/// The roots from index `i` on.
fn do_roots(
    roots: &Vec<RootFiles>,
    i: usize,
    thumb_dir: &str,
    chunk_size: usize,
    registry: &mut DedupRegistry,
    ca: &mut Option<usize>,
    events: &mut Vec<Event>,
) -> (cancelled: bool)
    requires
        i <= roots@.len(),
        chunk_size >= 1,
    ensures
        ({
            let (evs, st2, cc) = run_roots(
                roots_data(roots@).skip(i as int),
                thumb_dir@,
                RunState { reg: old(registry)@, ca: *old(ca) },
                chunk_size as nat,
            );
            &&& events_data(final(events)@) == events_data(old(events)@) + evs
            &&& final(registry)@ == st2.reg
            &&& *final(ca) == st2.ca
            &&& cancelled == cc
            &&& final(events)@.len() >= old(events)@.len()
            &&& (forall|k: int|
                0 <= k < old(events)@.len() ==> #[trigger] final(events)@[k] == old(events)@[k])
            &&& (forall|k: int|
                old(events)@.len() <= k < final(events)@.len() ==> event_ids_shaped(
                    #[trigger] final(events)@[k],
                ))
        }),
    decreases roots@.len() - i,
{
    let ghost rd = roots_data(roots@);
    let ghost rest = rd.skip(i as int);
    if i == roots.len() {
        proof {
            assert(rest =~= Seq::<(Seq<char>, Seq<Seq<char>>)>::empty());
            assert(events_data(events@) + Seq::<EventData>::empty() =~= events_data(events@));
        }
        return false;
    }
    proof {
        assert(rest[0] == rd[i as int]);
        assert(rd[i as int] == root_files_data(roots@[i as int]));
        assert(rest.skip(1) =~= rd.skip(i + 1 as int));
    }
    let hit = poll(ca);
    if hit {
        let msg = chars_string("File listing operation cancelled");
        let ev = Event::Text { channel: Channel::RemoveAllData, message: msg };
        let ghost evs_mid = events@;
        events.push(ev);
        proof {
            lemma_events_data_push(evs_mid, ev);
            assert(events_data(events@) =~= events_data(old(events)@) + seq![cancelled_event()]);
        }
        return true;
    }
    let root = &roots[i];
    let msg = chars_string("Fetching data from: ").concat(root.root.as_str());
    let ev = Event::Text { channel: Channel::StatusUpdate, message: msg };
    let ghost evs_mid = events@;
    events.push(ev);
    proof {
        lemma_events_data_push(evs_mid, ev);
        assert(event_data(ev) == fetching_event(rest[0].0));
    }
    let sorted = sort_strings(&root.files);
    proof {
        assert(sorted.deep_view() == sort_seqs(rest[0].1));
    }
    let cc = do_chunks(&sorted, 0, thumb_dir, chunk_size, registry, ca, events);
    proof {
        assert(sorted.deep_view().skip(0) =~= sorted.deep_view());
    }
    if cc {
        proof {
            let whole = run_roots(
                rest,
                thumb_dir@,
                RunState { reg: old(registry)@, ca: *old(ca) },
                chunk_size as nat,
            );
            assert(events_data(events@) =~= events_data(old(events)@) + whole.0);
        }
        return true;
    }
    let cc2 = do_roots(roots, i + 1, thumb_dir, chunk_size, registry, ca, events);
    proof {
        let whole = run_roots(
            rest,
            thumb_dir@,
            RunState { reg: old(registry)@, ca: *old(ca) },
            chunk_size as nat,
        );
        assert(events_data(events@) =~= events_data(old(events)@) + whole.0);
    }
    cc2
}

/// One discovery run: visit the given roots in their order (the expander
/// hands them over sorted), emit one status event per root and the kept
/// files in batches, observe cancellation as the polls dictate, and close
/// with the terminal status event when the run was never cut short. The
/// registry keeps every identity the run emitted.
pub fn list_files(
    roots: &Vec<RootFiles>,
    chunk_size: usize,
    thumb_dir: &str,
    registry: &mut DedupRegistry,
    cancel_after_polls: Option<usize>,
) -> (events: Vec<Event>)
    requires
        chunk_size >= 1,
    ensures
        ({
            let (evs, reg2, cc) = discovery_spec(
                roots_data(roots@),
                thumb_dir@,
                old(registry)@,
                cancel_after_polls,
                chunk_size as nat,
            );
            &&& events_data(events@) == evs
            &&& final(registry)@ == reg2
        }),
        events_ids_shaped(events@),
{
    let mut events: Vec<Event> = Vec::new();
    let mut ca: Option<usize> = cancel_after_polls;
    proof {
        assert(roots_data(roots@).skip(0) =~= roots_data(roots@));
        assert(events_data(events@) =~= Seq::<EventData>::empty());
    }
    let cancelled = do_roots(roots, 0, thumb_dir, chunk_size, registry, &mut ca, &mut events);
    proof {
        let whole = run_roots(
            roots_data(roots@),
            thumb_dir@,
            RunState { reg: old(registry)@, ca: cancel_after_polls },
            chunk_size as nat,
        );
        assert(events_data(events@) =~= Seq::<EventData>::empty() + whole.0);
        assert(events_data(events@) =~= whole.0);
    }
    if !cancelled {
        let msg = chars_string("File listing completed");
        let ev = Event::Text { channel: Channel::StatusUpdate, message: msg };
        let ghost evs_mid = events@;
        events.push(ev);
        proof {
            lemma_events_data_push(evs_mid, ev);
            assert(event_data(ev) == completed_event());
            let whole = run_roots(
                roots_data(roots@),
                thumb_dir@,
                RunState { reg: old(registry)@, ca: cancel_after_polls },
                chunk_size as nat,
            );
            assert(events_data(events@) =~= whole.0 + seq![completed_event()]);
        }
    }
    events
}

/// The guard a discovery request passes first: with no path configured at
/// all there is nothing to scan, and the request answers with one status
/// event instead of a run.
pub fn check_paths_configured(priority_paths: &Vec<String>) -> (r: Option<Event>)
    ensures
        (r is Some) == (priority_paths@.len() == 0),
        (r matches Some(e) ==> event_data(e) == status_event(
            "No paths configured for listing"@,
        )),
{
    if priority_paths.len() == 0 {
        let msg = chars_string("No paths configured for listing");
        Some(Event::Text { channel: Channel::StatusUpdate, message: msg })
    } else {
        None
    }
}

// ---------- laws ----------

/// All records carried by batch events, in emission order.
pub open spec fn emitted_records(evs: Seq<EventData>) -> Seq<RecordData>
    decreases evs.len(),
{
    if evs.len() == 0 {
        Seq::empty()
    } else {
        (match evs[0] {
            EventData::Batch { records, .. } => records,
            _ => Seq::empty(),
        }) + emitted_records(evs.skip(1))
    }
}

proof fn lemma_emitted_records_concat(a: Seq<EventData>, b: Seq<EventData>)
    ensures
        emitted_records(a + b) == emitted_records(a) + emitted_records(b),
    decreases a.len(),
{
    if a.len() == 0 {
        assert(a + b =~= b);
        assert(emitted_records(a) =~= Seq::<RecordData>::empty());
        assert(emitted_records(a) + emitted_records(b) =~= emitted_records(b));
    } else {
        assert((a + b)[0] == a[0]);
        assert((a + b).skip(1) =~= a.skip(1) + b);
        lemma_emitted_records_concat(a.skip(1), b);
        assert(emitted_records(a + b) =~= emitted_records(a) + emitted_records(b));
    }
}

proof fn lemma_emitted_records_one(e: EventData)
    ensures
        emitted_records(seq![e]) == (match e {
            EventData::Batch { records, .. } => records,
            _ => Seq::<RecordData>::empty(),
        }),
{
    assert(seq![e].len() == 1);
    assert(seq![e][0] == e);
    assert(seq![e].skip(1) =~= Seq::<EventData>::empty());
    assert(emitted_records(Seq::<EventData>::empty()) == Seq::<RecordData>::empty());
    assert(emitted_records(seq![e]) =~= (match e {
        EventData::Batch { records, .. } => records,
        _ => Seq::<RecordData>::empty(),
    }));
}

/// Freshness of a record list against a registry: nothing already
/// registered, nothing twice, and everything registered afterwards.
pub open spec fn fresh_records(rs: Seq<RecordData>, reg0: Set<Seq<char>>, reg1: Set<Seq<char>>)
    -> bool {
    &&& forall|i: int| 0 <= i < rs.len() ==> !reg0.contains((#[trigger] rs[i]).file_path)
    &&& forall|i: int, j: int|
        0 <= i < j < rs.len() ==> (#[trigger] rs[i]).file_path != (#[trigger] rs[j]).file_path
    &&& forall|i: int| 0 <= i < rs.len() ==> reg1.contains((#[trigger] rs[i]).file_path)
    &&& reg0.subset_of(reg1)
}

proof fn lemma_chunk_records_dedup(files: Seq<Seq<char>>, dir: Seq<char>, st: RunState)
    ensures
        ({
            let (rs, st2) = chunk_records(files, dir, st);
            fresh_records(rs, st.reg, st2.reg)
        }),
    decreases files.len(),
{
    if files.len() == 0 {
    } else {
        let f = files[0];
        let stepped = RunState { reg: st.reg, ca: poll_next(st.ca) };
        if poll_hit(st.ca) || st.reg.contains(f) || media_kind_of(f) is Unknown {
            lemma_chunk_records_dedup(files.skip(1), dir, stepped);
        } else {
            let st_ins = RunState { reg: st.reg.insert(f), ca: poll_next(st.ca) };
            lemma_chunk_records_dedup(files.skip(1), dir, st_ins);
            let (rest, st2) = chunk_records(files.skip(1), dir, st_ins);
            let (rs, _st2b) = chunk_records(files, dir, st);
            assert(rs == seq![discovery_record(dir, f)] + rest);
            assert(rs[0] == discovery_record(dir, f));
            assert(forall|i: int| 1 <= i < rs.len() ==> rs[i] == rest[i - 1]);
            assert(st2.reg.contains(f)) by {
                assert(st_ins.reg.contains(f));
                assert(st_ins.reg.subset_of(st2.reg));
            }
            assert(forall|i: int|
                1 <= i < rs.len() ==> (#[trigger] rs[i]).file_path != f);
        }
    }
}

proof fn lemma_run_chunks_dedup(files: Seq<Seq<char>>, dir: Seq<char>, st: RunState, chunk: nat)
    ensures
        ({
            let (evs, st2, cc) = run_chunks(files, dir, st, chunk);
            fresh_records(emitted_records(evs), st.reg, st2.reg)
        }),
    decreases files.len(),
{
    let (evs, st2, cc) = run_chunks(files, dir, st, chunk);
    if files.len() == 0 {
    } else if poll_hit(st.ca) {
        lemma_emitted_records_one(cancelled_event());
    } else {
        let c = chunk_take(files.len(), chunk);
        let st_in = RunState { reg: st.reg, ca: poll_next(st.ca) };
        let (recs, stc) = chunk_records(files.take(c as int), dir, st_in);
        lemma_chunk_records_dedup(files.take(c as int), dir, st_in);
        if recs.len() > 0 {
            if poll_hit(stc.ca) {
                lemma_emitted_records_one(cancelled_event());
            } else {
                let st_next = RunState { reg: stc.reg, ca: poll_next(stc.ca) };
                lemma_run_chunks_dedup(files.skip(c as int), dir, st_next, chunk);
                let (revs, st3, _cc) = run_chunks(files.skip(c as int), dir, st_next, chunk);
                lemma_emitted_records_one(batch_event(recs));
                lemma_emitted_records_concat(seq![batch_event(recs)], revs);
                let all = emitted_records(evs);
                assert(all == recs + emitted_records(revs));
                let rr = emitted_records(revs);
                assert(forall|i: int| 0 <= i < recs.len() ==> all[i] == recs[i]);
                assert(forall|i: int|
                    recs.len() <= i < all.len() ==> all[i] == rr[i - recs.len()]);
                assert forall|i: int, j: int|
                    0 <= i < j < all.len() implies (#[trigger] all[i]).file_path != (
                #[trigger] all[j]).file_path by {
                    if i < recs.len() && j >= recs.len() {
                        assert(stc.reg.contains(recs[i].file_path));
                        assert(!stc.reg.contains(rr[j - recs.len()].file_path));
                    }
                }
            }
        } else {
            lemma_run_chunks_dedup(files.skip(c as int), dir, stc, chunk);
        }
    }
}

proof fn lemma_run_roots_dedup(
    roots: Seq<(Seq<char>, Seq<Seq<char>>)>,
    dir: Seq<char>,
    st: RunState,
    chunk: nat,
)
    ensures
        ({
            let (evs, st2, cc) = run_roots(roots, dir, st, chunk);
            fresh_records(emitted_records(evs), st.reg, st2.reg)
        }),
    decreases roots.len(),
{
    let (evs, st2, cc) = run_roots(roots, dir, st, chunk);
    if roots.len() == 0 {
    } else if poll_hit(st.ca) {
        lemma_emitted_records_one(cancelled_event());
    } else {
        let (root, files) = roots[0];
        let st_in = RunState { reg: st.reg, ca: poll_next(st.ca) };
        let (cevs, stc, cc1) = run_chunks(sort_seqs(files), dir, st_in, chunk);
        lemma_run_chunks_dedup(sort_seqs(files), dir, st_in, chunk);
        lemma_emitted_records_one(fetching_event(root));
        if cc1 {
            lemma_emitted_records_concat(seq![fetching_event(root)], cevs);
            assert(emitted_records(evs) == emitted_records(cevs));
        } else {
            lemma_run_roots_dedup(roots.skip(1), dir, stc, chunk);
            let (revs, st3, _cc2) = run_roots(roots.skip(1), dir, stc, chunk);
            lemma_emitted_records_concat(seq![fetching_event(root)] + cevs, revs);
            lemma_emitted_records_concat(seq![fetching_event(root)], cevs);
            let all = emitted_records(evs);
            let ce = emitted_records(cevs);
            let re = emitted_records(revs);
            assert(evs == (seq![fetching_event(root)] + cevs) + revs);
            assert(all == ce + re);
            assert(forall|i: int| 0 <= i < ce.len() ==> all[i] == ce[i]);
            assert(forall|i: int| ce.len() <= i < all.len() ==> all[i] == re[i - ce.len()]);
            assert forall|i: int, j: int|
                0 <= i < j < all.len() implies (#[trigger] all[i]).file_path != (
            #[trigger] all[j]).file_path by {
                if i < ce.len() && j >= ce.len() {
                    assert(stc.reg.contains(ce[i].file_path));
                    assert(!stc.reg.contains(re[j - ce.len()].file_path));
                }
            }
        }
    }
}

/// Law: a discovery run never emits an identity that the registry already
/// held when the run began, never emits one identity twice, and leaves
/// every emitted identity (and everything it held before) in the registry.
/// So a file emitted once is not emitted again by a later run unless the
/// registry is cleared in between; a run started from a cleared (empty)
/// registry is free to emit it again.
pub proof fn lemma_discovery_dedup(
    roots: Seq<(Seq<char>, Seq<Seq<char>>)>,
    dir: Seq<char>,
    reg0: Set<Seq<char>>,
    ca: Option<usize>,
    chunk: nat,
)
    ensures
        ({
            let (evs, reg1, cc) = discovery_spec(roots, dir, reg0, ca, chunk);
            fresh_records(emitted_records(evs), reg0, reg1)
        }),
{
    let st = RunState { reg: reg0, ca };
    let (revs, st2, cc) = run_roots(roots, dir, st, chunk);
    lemma_run_roots_dedup(roots, dir, st, chunk);
    if !cc {
        lemma_emitted_records_concat(revs, seq![completed_event()]);
        lemma_emitted_records_one(completed_event());
        assert(emitted_records(revs + seq![completed_event()]) =~= emitted_records(revs));
    }
}

/// Law: a file emitted by one run is never emitted by a second run that
/// starts from the first run's registry, whatever the second run's roots,
/// chunk size or cancellation.
pub proof fn lemma_discovery_two_runs(
    roots1: Seq<(Seq<char>, Seq<Seq<char>>)>,
    roots2: Seq<(Seq<char>, Seq<Seq<char>>)>,
    dir: Seq<char>,
    reg0: Set<Seq<char>>,
    ca1: Option<usize>,
    ca2: Option<usize>,
    chunk1: nat,
    chunk2: nat,
)
    ensures
        ({
            let (evs1, reg1, cc1) = discovery_spec(roots1, dir, reg0, ca1, chunk1);
            let (evs2, reg2, cc2) = discovery_spec(roots2, dir, reg1, ca2, chunk2);
            let r1 = emitted_records(evs1);
            let r2 = emitted_records(evs2);
            forall|i: int, j: int|
                0 <= i < r1.len() && 0 <= j < r2.len() ==> (#[trigger] r1[i]).file_path != (
                #[trigger] r2[j]).file_path
        }),
{
    let (evs1, reg1, cc1) = discovery_spec(roots1, dir, reg0, ca1, chunk1);
    lemma_discovery_dedup(roots1, dir, reg0, ca1, chunk1);
    lemma_discovery_dedup(roots2, dir, reg1, ca2, chunk2);
}

/// Law: with a fixed directory tree, registry and chunk size, two runs that
/// are never cancelled emit events carrying the same data — the same
/// records in particular, whatever identifiers each run drew.
pub proof fn lemma_discovery_deterministic(
    roots: Seq<(Seq<char>, Seq<Seq<char>>)>,
    dir: Seq<char>,
    reg0: Set<Seq<char>>,
    chunk: nat,
    e1: Seq<Event>,
    e2: Seq<Event>,
)
    requires
        events_data(e1) == discovery_spec(roots, dir, reg0, None, chunk).0,
        events_data(e2) == discovery_spec(roots, dir, reg0, None, chunk).0,
    ensures
        events_data(e1) == events_data(e2),
        emitted_records(events_data(e1)) == emitted_records(events_data(e2)),
        emitted_records(events_data(e1)).to_set() == emitted_records(events_data(e2)).to_set(),
{
}

/// The files of one root that a run with no cancellation keeps: those of
/// known kind whose identity is not yet registered, in order, each
/// registering itself.
pub open spec fn kept_files(files: Seq<Seq<char>>, reg: Set<Seq<char>>) -> (
    Seq<Seq<char>>,
    Set<Seq<char>>,
)
    decreases files.len(),
{
    if files.len() == 0 {
        (Seq::empty(), reg)
    } else {
        let f = files[0];
        if reg.contains(f) || media_kind_of(f) is Unknown {
            kept_files(files.skip(1), reg)
        } else {
            let rest = kept_files(files.skip(1), reg.insert(f));
            (seq![f] + rest.0, rest.1)
        }
    }
}

/// The kept files of a whole run: roots in their given order, each root's
/// files sorted.
pub open spec fn kept_roots(roots: Seq<(Seq<char>, Seq<Seq<char>>)>, reg: Set<Seq<char>>) -> (
    Seq<Seq<char>>,
    Set<Seq<char>>,
)
    decreases roots.len(),
{
    if roots.len() == 0 {
        (Seq::empty(), reg)
    } else {
        let first = kept_files(sort_seqs(roots[0].1), reg);
        let rest = kept_roots(roots.skip(1), first.1);
        (first.0 + rest.0, rest.1)
    }
}

pub open spec fn records_of(dir: Seq<char>, files: Seq<Seq<char>>) -> Seq<RecordData> {
    files.map_values(|f: Seq<char>| discovery_record(dir, f))
}

proof fn lemma_chunk_records_uncancelled(files: Seq<Seq<char>>, dir: Seq<char>, reg: Set<
    Seq<char>,
>)
    ensures
        ({
            let kept = kept_files(files, reg);
            chunk_records(files, dir, RunState { reg, ca: None }) == (
                records_of(dir, kept.0),
                RunState { reg: kept.1, ca: None },
            )
        }),
    decreases files.len(),
{
    let kept = kept_files(files, reg);
    if files.len() == 0 {
        assert(records_of(dir, kept.0) =~= Seq::<RecordData>::empty());
    } else {
        let f = files[0];
        assert(!poll_hit(None::<usize>));
        assert(poll_next(None::<usize>) == None::<usize>);
        if reg.contains(f) || media_kind_of(f) is Unknown {
            lemma_chunk_records_uncancelled(files.skip(1), dir, reg);
        } else {
            lemma_chunk_records_uncancelled(files.skip(1), dir, reg.insert(f));
            let rest = kept_files(files.skip(1), reg.insert(f));
            assert(records_of(dir, seq![f] + rest.0) =~= seq![discovery_record(dir, f)]
                + records_of(dir, rest.0));
        }
    }
}

proof fn lemma_kept_files_concat(a: Seq<Seq<char>>, b: Seq<Seq<char>>, reg: Set<Seq<char>>)
    ensures
        kept_files(a + b, reg).0 == kept_files(a, reg).0 + kept_files(b, kept_files(a, reg).1).0,
        kept_files(a + b, reg).1 == kept_files(b, kept_files(a, reg).1).1,
    decreases a.len(),
{
    if a.len() == 0 {
        assert(a + b =~= b);
        assert(kept_files(a, reg).0 =~= Seq::<Seq<char>>::empty());
        assert(kept_files(a, reg).0 + kept_files(b, reg).0 =~= kept_files(b, reg).0);
    } else {
        let f = a[0];
        assert((a + b)[0] == f);
        assert((a + b).skip(1) =~= a.skip(1) + b);
        if reg.contains(f) || media_kind_of(f) is Unknown {
            lemma_kept_files_concat(a.skip(1), b, reg);
        } else {
            lemma_kept_files_concat(a.skip(1), b, reg.insert(f));
            assert(seq![f] + (kept_files(a.skip(1), reg.insert(f)).0 + kept_files(
                b,
                kept_files(a.skip(1), reg.insert(f)).1,
            ).0) =~= (seq![f] + kept_files(a.skip(1), reg.insert(f)).0) + kept_files(
                b,
                kept_files(a.skip(1), reg.insert(f)).1,
            ).0);
        }
    }
}

proof fn lemma_run_chunks_uncancelled(
    files: Seq<Seq<char>>,
    dir: Seq<char>,
    reg: Set<Seq<char>>,
    chunk: nat,
)
    ensures
        ({
            let (evs, st2, cc) = run_chunks(files, dir, RunState { reg, ca: None }, chunk);
            let kept = kept_files(files, reg);
            &&& !cc
            &&& st2 == RunState { reg: kept.1, ca: None }
            &&& emitted_records(evs) == records_of(dir, kept.0)
        }),
    decreases files.len(),
{
    let (evs, st2, cc) = run_chunks(files, dir, RunState { reg, ca: None }, chunk);
    let kept = kept_files(files, reg);
    if files.len() == 0 {
        assert(records_of(dir, kept.0) =~= Seq::<RecordData>::empty());
    } else {
        assert(!poll_hit(None::<usize>));
        assert(poll_next(None::<usize>) == None::<usize>);
        let c = chunk_take(files.len(), chunk);
        let head = files.take(c as int);
        let tail = files.skip(c as int);
        assert(files =~= head + tail);
        lemma_chunk_records_uncancelled(head, dir, reg);
        let kept_head = kept_files(head, reg);
        let (recs, stc) = chunk_records(head, dir, RunState { reg, ca: None });
        lemma_run_chunks_uncancelled(tail, dir, kept_head.1, chunk);
        let (revs, st3, _cc) = run_chunks(tail, dir, RunState { reg: kept_head.1, ca: None },
            chunk);
        lemma_kept_files_concat(head, tail, reg);
        let kept_tail = kept_files(tail, kept_head.1);
        if recs.len() > 0 {
            lemma_emitted_records_concat(seq![batch_event(recs)], revs);
            lemma_emitted_records_one(batch_event(recs));
            assert(emitted_records(evs) == recs + emitted_records(revs));
            assert(records_of(dir, kept.0) =~= records_of(dir, kept_head.0) + records_of(
                dir,
                kept_tail.0,
            ));
        } else {
            assert(kept_head.0.len() == 0) by {
                assert(records_of(dir, kept_head.0).len() == kept_head.0.len());
            }
            assert(kept_head.0 =~= Seq::<Seq<char>>::empty());
            assert(kept.0 =~= kept_tail.0);
        }
    }
}

proof fn lemma_run_roots_uncancelled(
    roots: Seq<(Seq<char>, Seq<Seq<char>>)>,
    dir: Seq<char>,
    reg: Set<Seq<char>>,
    chunk: nat,
)
    ensures
        ({
            let (evs, st2, cc) = run_roots(roots, dir, RunState { reg, ca: None }, chunk);
            let kept = kept_roots(roots, reg);
            &&& !cc
            &&& st2 == RunState { reg: kept.1, ca: None }
            &&& emitted_records(evs) == records_of(dir, kept.0)
        }),
    decreases roots.len(),
{
    let (evs, st2, cc) = run_roots(roots, dir, RunState { reg, ca: None }, chunk);
    let kept = kept_roots(roots, reg);
    if roots.len() == 0 {
        assert(records_of(dir, kept.0) =~= Seq::<RecordData>::empty());
    } else {
        assert(!poll_hit(None::<usize>));
        assert(poll_next(None::<usize>) == None::<usize>);
        let (root, files) = roots[0];
        lemma_run_chunks_uncancelled(sort_seqs(files), dir, reg, chunk);
        let kept_first = kept_files(sort_seqs(files), reg);
        let (cevs, stc, cc1) = run_chunks(sort_seqs(files), dir, RunState { reg, ca: None },
            chunk);
        lemma_run_roots_uncancelled(roots.skip(1), dir, kept_first.1, chunk);
        let (revs, st3, _cc2) = run_roots(
            roots.skip(1),
            dir,
            RunState { reg: kept_first.1, ca: None },
            chunk,
        );
        let kept_rest = kept_roots(roots.skip(1), kept_first.1);
        lemma_emitted_records_concat(seq![fetching_event(root)] + cevs, revs);
        lemma_emitted_records_concat(seq![fetching_event(root)], cevs);
        lemma_emitted_records_one(fetching_event(root));
        assert(evs == (seq![fetching_event(root)] + cevs) + revs);
        assert(emitted_records(evs) == emitted_records(cevs) + emitted_records(revs));
        assert(records_of(dir, kept.0) =~= records_of(dir, kept_first.0) + records_of(
            dir,
            kept_rest.0,
        ));
    }
}

proof fn lemma_kept_files_members(files: Seq<Seq<char>>, reg: Set<Seq<char>>)
    ensures
        forall|k: int|
            0 <= k < kept_files(files, reg).0.len() ==> files.contains(
                #[trigger] kept_files(files, reg).0[k],
            ),
    decreases files.len(),
{
    if files.len() == 0 {
    } else {
        let f = files[0];
        if reg.contains(f) || media_kind_of(f) is Unknown {
            lemma_kept_files_members(files.skip(1), reg);
            assert forall|k: int|
                0 <= k < kept_files(files, reg).0.len() implies files.contains(
                #[trigger] kept_files(files, reg).0[k]) by {
                let x = kept_files(files, reg).0[k];
                assert(kept_files(files.skip(1), reg).0[k] == x);
                assert(files.skip(1).contains(x));
                let m = choose|m: int| 0 <= m < files.skip(1).len() && files.skip(1)[m] == x;
                assert(files[m + 1] == x);
            }
        } else {
            lemma_kept_files_members(files.skip(1), reg.insert(f));
            let rest = kept_files(files.skip(1), reg.insert(f)).0;
            assert forall|k: int|
                0 <= k < kept_files(files, reg).0.len() implies files.contains(
                #[trigger] kept_files(files, reg).0[k]) by {
                let x = kept_files(files, reg).0[k];
                if k == 0 {
                    assert(files[0] == x);
                } else {
                    assert(kept_files(files.skip(1), reg.insert(f)).0[k - 1] == x);
                    assert(files.skip(1).contains(x));
                    let m = choose|m: int| 0 <= m < files.skip(1).len() && files.skip(1)[m] == x;
                    assert(files[m + 1] == x);
                }
            }
        }
    }
}

proof fn lemma_kept_files_sorted(files: Seq<Seq<char>>, reg: Set<Seq<char>>)
    requires
        crate::text::sorted_le(files),
    ensures
        crate::text::sorted_le(kept_files(files, reg).0),
    decreases files.len(),
{
    if files.len() == 0 {
    } else {
        let f = files[0];
        assert(crate::text::sorted_le(files.skip(1))) by {
            assert(forall|i: int, j: int|
                0 <= i < j < files.skip(1).len() ==> crate::text::lex_le(
                    #[trigger] files.skip(1)[i],
                    #[trigger] files.skip(1)[j],
                ));
        }
        if reg.contains(f) || media_kind_of(f) is Unknown {
            lemma_kept_files_sorted(files.skip(1), reg);
        } else {
            lemma_kept_files_sorted(files.skip(1), reg.insert(f));
            lemma_kept_files_members(files.skip(1), reg.insert(f));
            let rest = kept_files(files.skip(1), reg.insert(f)).0;
            let whole = kept_files(files, reg).0;
            assert(whole == seq![f] + rest);
            assert forall|k: int| 0 <= k < rest.len() implies crate::text::lex_le(f, rest[k]) by {
                assert(files.skip(1).contains(rest[k]));
                let m = choose|m: int| 0 <= m < files.skip(1).len() && files.skip(1)[m] == rest[k];
                assert(files[m + 1] == rest[k]);
                assert(crate::text::lex_le(files[0], files[m + 1]));
            }
            assert(crate::text::sorted_le(whole)) by {
                assert(forall|k: int| 1 <= k < whole.len() ==> whole[k] == rest[k - 1]);
            }
        }
    }
}

/// Law: within one root, an uncancelled run emits its records in sorted
/// file order: the kept files of each root are a selection from the root's
/// files after sorting, in that order.
pub proof fn lemma_root_records_sorted(files: Seq<Seq<char>>, reg: Set<Seq<char>>)
    ensures
        crate::text::sorted_le(kept_files(sort_seqs(files), reg).0),
{
    crate::text::lemma_sort_seqs_props(files);
    lemma_kept_files_sorted(sort_seqs(files), reg);
}

/// Law: a run that is never cancelled completes and emits exactly the
/// known-kind, not-yet-registered files — roots in their given order, files
/// in sorted order within each root, one record per file with its
/// thumbnail location — whatever the chunk size: the chunking chooses only
/// the batch boundaries, never the membership. With a fixed directory tree
/// and registry, the emitted records are therefore the same across runs.
pub proof fn lemma_discovery_uncancelled_records(
    roots: Seq<(Seq<char>, Seq<Seq<char>>)>,
    dir: Seq<char>,
    reg0: Set<Seq<char>>,
    chunk: nat,
)
    ensures
        ({
            let (evs, reg1, cc) = discovery_spec(roots, dir, reg0, None, chunk);
            let kept = kept_roots(roots, reg0);
            &&& !cc
            &&& emitted_records(evs) == records_of(dir, kept.0)
            &&& reg1 == kept.1
        }),
{
    let st = RunState { reg: reg0, ca: None };
    let (revs, st2, cc) = run_roots(roots, dir, st, chunk);
    lemma_run_roots_uncancelled(roots, dir, reg0, chunk);
    lemma_emitted_records_concat(revs, seq![completed_event()]);
    lemma_emitted_records_one(completed_event());
    assert(emitted_records(revs + seq![completed_event()]) =~= emitted_records(revs));
}

/// How many times the cancelled control event occurs.
pub open spec fn cancelled_count(evs: Seq<EventData>) -> int
    decreases evs.len(),
{
    if evs.len() == 0 {
        0
    } else {
        (if evs[0] == cancelled_event() {
            1int
        } else {
            0int
        }) + cancelled_count(evs.skip(1))
    }
}

proof fn lemma_cancelled_count_concat(a: Seq<EventData>, b: Seq<EventData>)
    ensures
        cancelled_count(a + b) == cancelled_count(a) + cancelled_count(b),
    decreases a.len(),
{
    if a.len() == 0 {
        assert(a + b =~= b);
    } else {
        assert((a + b)[0] == a[0]);
        assert((a + b).skip(1) =~= a.skip(1) + b);
        lemma_cancelled_count_concat(a.skip(1), b);
    }
}

proof fn lemma_cancelled_count_one(e: EventData)
    ensures
        cancelled_count(seq![e]) == (if e == cancelled_event() {
            1int
        } else {
            0int
        }),
{
    assert(seq![e].len() == 1);
    assert(seq![e][0] == e);
    assert(seq![e].skip(1) =~= Seq::<EventData>::empty());
    assert(cancelled_count(Seq::<EventData>::empty()) == 0);
}

proof fn lemma_run_chunks_cancelled(files: Seq<Seq<char>>, dir: Seq<char>, st: RunState,
    chunk: nat)
    ensures
        ({
            let (evs, st2, cc) = run_chunks(files, dir, st, chunk);
            &&& cc ==> cancelled_count(evs) == 1 && evs.len() >= 1 && evs.last()
                == cancelled_event()
            &&& !cc ==> cancelled_count(evs) == 0
        }),
    decreases files.len(),
{
    let (evs, st2, cc) = run_chunks(files, dir, st, chunk);
    if files.len() == 0 {
    } else if poll_hit(st.ca) {
        lemma_cancelled_count_one(cancelled_event());
    } else {
        let c = chunk_take(files.len(), chunk);
        let st_in = RunState { reg: st.reg, ca: poll_next(st.ca) };
        let (recs, stc) = chunk_records(files.take(c as int), dir, st_in);
        if recs.len() > 0 {
            if poll_hit(stc.ca) {
                lemma_cancelled_count_one(cancelled_event());
            } else {
                let st_next = RunState { reg: stc.reg, ca: poll_next(stc.ca) };
                lemma_run_chunks_cancelled(files.skip(c as int), dir, st_next, chunk);
                let (revs, _st3, cc2) = run_chunks(files.skip(c as int), dir, st_next, chunk);
                lemma_cancelled_count_concat(seq![batch_event(recs)], revs);
                lemma_cancelled_count_one(batch_event(recs));
                if cc2 {
                    assert(evs.last() == revs.last());
                }
            }
        } else {
            lemma_run_chunks_cancelled(files.skip(c as int), dir, stc, chunk);
        }
    }
}

proof fn lemma_run_roots_cancelled(
    roots: Seq<(Seq<char>, Seq<Seq<char>>)>,
    dir: Seq<char>,
    st: RunState,
    chunk: nat,
)
    ensures
        ({
            let (evs, st2, cc) = run_roots(roots, dir, st, chunk);
            &&& cc ==> cancelled_count(evs) == 1 && evs.len() >= 1 && evs.last()
                == cancelled_event()
            &&& !cc ==> cancelled_count(evs) == 0
        }),
    decreases roots.len(),
{
    let (evs, st2, cc) = run_roots(roots, dir, st, chunk);
    if roots.len() == 0 {
    } else if poll_hit(st.ca) {
        lemma_cancelled_count_one(cancelled_event());
    } else {
        let (root, files) = roots[0];
        let st_in = RunState { reg: st.reg, ca: poll_next(st.ca) };
        let (cevs, stc, cc1) = run_chunks(sort_seqs(files), dir, st_in, chunk);
        lemma_run_chunks_cancelled(sort_seqs(files), dir, st_in, chunk);
        lemma_cancelled_count_one(fetching_event(root));
        assert(fetching_event(root) != cancelled_event());
        if cc1 {
            lemma_cancelled_count_concat(seq![fetching_event(root)], cevs);
            assert(evs.last() == cevs.last());
        } else {
            let (revs, _st3, cc2) = run_roots(roots.skip(1), dir, stc, chunk);
            lemma_run_roots_cancelled(roots.skip(1), dir, stc, chunk);
            lemma_cancelled_count_concat(seq![fetching_event(root)] + cevs, revs);
            lemma_cancelled_count_concat(seq![fetching_event(root)], cevs);
            if cc2 {
                assert(evs == (seq![fetching_event(root)] + cevs) + revs);
                assert(evs.last() == revs.last());
            }
        }
    }
}

/// Law: a cancelled run emits the cancelled control event exactly once, as
/// its last event; a run that is never cancelled emits it never.
pub proof fn lemma_discovery_cancelled_once(
    roots: Seq<(Seq<char>, Seq<Seq<char>>)>,
    dir: Seq<char>,
    reg0: Set<Seq<char>>,
    ca: Option<usize>,
    chunk: nat,
)
    ensures
        ({
            let (evs, reg1, cc) = discovery_spec(roots, dir, reg0, ca, chunk);
            &&& cc ==> cancelled_count(evs) == 1 && evs.len() >= 1 && evs.last()
                == cancelled_event()
            &&& !cc ==> cancelled_count(evs) == 0
        }),
{
    let st = RunState { reg: reg0, ca };
    let (revs, st2, cc) = run_roots(roots, dir, st, chunk);
    lemma_run_roots_cancelled(roots, dir, st, chunk);
    if !cc {
        lemma_cancelled_count_concat(revs, seq![completed_event()]);
        lemma_cancelled_count_one(completed_event());
        assert(completed_event() != cancelled_event());
    }
}

} // verus!
