use snaphound::classify::MediaKind;
use snaphound::dedup::DedupRegistry;
use snaphound::discovery::list_files;
use snaphound::discovery::RootFiles;
use snaphound::events::Channel;
use snaphound::events::Event;

fn root(path: &str, files: Vec<&str>) -> RootFiles {
    RootFiles {
        root: path.to_string(),
        files: files.into_iter().map(|s| s.to_string()).collect(),
    }
}

/// The (file_path, thumbnail_path, kind) triples of all batch events.
fn batch_records(events: &[Event]) -> Vec<(String, String, MediaKind)> {
    let mut out = Vec::new();
    for e in events {
        if let Event::Batch { records, .. } = e {
            for r in records {
                out.push((r.file_path.clone(), r.thumbnail_path.clone(), r.kind));
            }
        }
    }
    out
}

fn cancel_events(events: &[Event]) -> usize {
    events
        .iter()
        .filter(|e| match e {
            Event::Text { channel, message } => {
                *channel == Channel::RemoveAllData && message == "File listing operation cancelled"
            },
            _ => false,
        })
        .count()
}

#[test]
fn classification_scenario_two_roots() {
    let roots = vec![root("/a", vec!["/a/1.jpg", "/a/2.txt"]), root("/b", vec!["/b/3.mp4"])];
    let mut reg = DedupRegistry::new();
    let events = list_files(&roots, 2, "/t", &mut reg, None);

    let recs = batch_records(&events);
    assert_eq!(
        recs,
        vec![
            ("/a/1.jpg".to_string(), "/t/1.webp".to_string(), MediaKind::Image),
            ("/b/3.mp4".to_string(), "/t/3.webp".to_string(), MediaKind::Video),
        ]
    );

    // the surrounding events: status per root, terminal status, no cancellation
    let texts: Vec<(Channel, String)> = events
        .iter()
        .filter_map(|e| match e {
            Event::Text { channel, message } => Some((*channel, message.clone())),
            _ => None,
        })
        .collect();
    assert_eq!(
        texts,
        vec![
            (Channel::StatusUpdate, "Fetching data from: /a".to_string()),
            (Channel::StatusUpdate, "Fetching data from: /b".to_string()),
            (Channel::StatusUpdate, "File listing completed".to_string()),
        ]
    );
    assert_eq!(cancel_events(&events), 0);
}

#[test]
fn record_ids_are_opaque_36_char_identifiers() {
    let roots = vec![root("/a", vec!["/a/1.jpg"])];
    let mut reg = DedupRegistry::new();
    let events = list_files(&roots, 1, "/t", &mut reg, None);
    for e in &events {
        if let Event::Batch { records, .. } = e {
            for r in records {
                assert_eq!(r.id.chars().count(), 36);
                assert!(!r.is_search_result);
            }
        }
    }
}

#[test]
fn files_are_emitted_in_sorted_order_within_a_root() {
    let roots = vec![root("/a", vec!["/a/c.jpg", "/a/a.jpg", "/a/b.jpg"])];
    let mut reg = DedupRegistry::new();
    let events = list_files(&roots, 10, "/t", &mut reg, None);
    let recs = batch_records(&events);
    let paths: Vec<&str> = recs.iter().map(|(p, _, _)| p.as_str()).collect();
    assert_eq!(paths, vec!["/a/a.jpg", "/a/b.jpg", "/a/c.jpg"]);
}

#[test]
fn determinism_two_runs_same_records() {
    let roots = vec![root("/a", vec!["/a/2.png", "/a/1.jpg", "/a/x.txt"]), root("/b", vec![
        "/b/3.mp4",
    ])];
    let mut reg1 = DedupRegistry::new();
    let events1 = list_files(&roots, 1, "/t", &mut reg1, None);
    let mut reg2 = DedupRegistry::new();
    let events2 = list_files(&roots, 1, "/t", &mut reg2, None);
    assert_eq!(batch_records(&events1), batch_records(&events2));
}

#[test]
fn dedup_across_runs_until_cleared() {
    let roots = vec![root("/a", vec!["/a/1.jpg"])];
    let mut reg = DedupRegistry::new();
    let events1 = list_files(&roots, 1, "/t", &mut reg, None);
    assert_eq!(batch_records(&events1).len(), 1);

    // a second run without a clear: the file is not emitted again
    let events2 = list_files(&roots, 1, "/t", &mut reg, None);
    assert_eq!(batch_records(&events2).len(), 0);

    // after a clear it may be emitted again
    reg.clear();
    let events3 = list_files(&roots, 1, "/t", &mut reg, None);
    assert_eq!(batch_records(&events3).len(), 1);
}

#[test]
fn duplicate_file_within_one_run_is_emitted_once() {
    let roots = vec![root("/a", vec!["/a/1.jpg", "/a/1.jpg"])];
    let mut reg = DedupRegistry::new();
    let events = list_files(&roots, 1, "/t", &mut reg, None);
    assert_eq!(batch_records(&events).len(), 1);
}

#[test]
fn cancellation_between_roots_stops_later_roots() {
    let roots = vec![
        root("/a", vec!["/a/1.jpg"]),
        root("/b", vec!["/b/2.jpg"]),
        root("/c", vec!["/c/3.jpg"]),
    ];
    // root 1 consumes 4 polls: its root check, one chunk check, one file
    // check, one emission check; the request lands before root 2's check
    let mut reg = DedupRegistry::new();
    let events = list_files(&roots, 1, "/t", &mut reg, Some(4));

    let recs = batch_records(&events);
    assert_eq!(recs.len(), 1);
    assert_eq!(recs[0].0, "/a/1.jpg");
    assert_eq!(cancel_events(&events), 1);
    // the cancellation event is the last event; no terminal status
    match events.last().unwrap() {
        Event::Text { channel, message } => {
            assert_eq!(*channel, Channel::RemoveAllData);
            assert_eq!(message, "File listing operation cancelled");
        },
        _ => panic!("expected the cancellation event last"),
    }
}

#[test]
fn uncancelled_run_ends_with_completion() {
    let roots = vec![root("/a", vec![])];
    let mut reg = DedupRegistry::new();
    let events = list_files(&roots, 1, "/t", &mut reg, None);
    match events.last().unwrap() {
        Event::Text { channel, message } => {
            assert_eq!(*channel, Channel::StatusUpdate);
            assert_eq!(message, "File listing completed");
        },
        _ => panic!("expected the terminal status event"),
    }
}

#[test]
fn immediate_cancellation_emits_only_the_control_event() {
    let roots = vec![root("/a", vec!["/a/1.jpg"])];
    let mut reg = DedupRegistry::new();
    let events = list_files(&roots, 1, "/t", &mut reg, Some(0));
    assert_eq!(events.len(), 1);
    assert_eq!(cancel_events(&events), 1);
    assert_eq!(batch_records(&events).len(), 0);
}

#[test]
fn batch_membership_follows_chunk_size() {
    let roots = vec![root("/a", vec!["/a/1.jpg", "/a/2.jpg", "/a/3.jpg"])];
    let mut reg = DedupRegistry::new();
    let events = list_files(&roots, 2, "/t", &mut reg, None);
    let sizes: Vec<usize> = events
        .iter()
        .filter_map(|e| match e {
            Event::Batch { records, .. } => Some(records.len()),
            _ => None,
        })
        .collect();
    assert_eq!(sizes, vec![2, 1]);
}

#[test]
fn no_roots_still_completes() {
    let mut reg = DedupRegistry::new();
    let events = list_files(&Vec::new(), 1, "/t", &mut reg, None);
    assert_eq!(events.len(), 1);
    match &events[0] {
        Event::Text { channel, message } => {
            assert_eq!(*channel, Channel::StatusUpdate);
            assert_eq!(message, "File listing completed");
        },
        _ => panic!("expected only the terminal status event"),
    }
}

#[test]
fn empty_configuration_answers_with_one_status_event() {
    let guard = snaphound::discovery::check_paths_configured(&Vec::new());
    match guard {
        Some(Event::Text { channel, message }) => {
            assert_eq!(channel, Channel::StatusUpdate);
            assert_eq!(message, "No paths configured for listing");
        },
        _ => panic!("expected the guard event"),
    }
    assert!(snaphound::discovery::check_paths_configured(&vec!["/a".to_string()]).is_none());
}

#[test]
fn registry_rejects_duplicates_and_clears() {
    let mut reg = DedupRegistry::new();
    assert!(!reg.contains_id("/x"));
    assert!(reg.insert_if_absent("/x"));
    assert!(reg.contains_id("/x"));
    assert!(!reg.insert_if_absent("/x"));
    reg.clear();
    assert!(!reg.contains_id("/x"));
    assert!(reg.insert_if_absent("/x"));
}
