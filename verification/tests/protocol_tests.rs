use snaphound::cancel::cancel_list_files;
use snaphound::cancel::force_reset;
use snaphound::cancel::CancelDecision;
use snaphound::cancel::CancelState;
use snaphound::classify::MediaKind;
use snaphound::dedup::DedupRegistry;
use snaphound::events::Channel;
use snaphound::events::Event;
use snaphound::json::parse_result_line;
use snaphound::protocol::handle_output_line;
use snaphound::protocol::search_command;
use snaphound::protocol::search_indexed_data;
use snaphound::protocol::start_python_args;
use snaphound::supervisor::send_command_to_python;
use snaphound::supervisor::stop_python_process;
use snaphound::supervisor::ProcessSlot;

#[test]
fn result_line_parses_paths_in_order() {
    let line = "{\"searched_result\": [\"/x/a.jpg\", \"/x/b.jpg\"]}";
    let paths = parse_result_line(line).unwrap();
    assert_eq!(paths, vec!["/x/a.jpg".to_string(), "/x/b.jpg".to_string()]);
}

#[test]
fn result_line_with_other_members_and_escapes() {
    let line = "{ \"status\": \"ok\", \"count\": 2.5e1, \"searched_result\": [\"/x/a \\\"b\\\".jpg\", \"/x/\\u0041.jpg\"], \"done\": true }";
    let paths = parse_result_line(line).unwrap();
    assert_eq!(paths, vec!["/x/a \"b\".jpg".to_string(), "/x/A.jpg".to_string()]);
}

#[test]
fn non_result_lines_are_not_recognized() {
    assert!(parse_result_line("plain progress text").is_none());
    assert!(parse_result_line("{\"other\": [1,2]}").is_none());
    // the key must map to an array
    assert!(parse_result_line("{\"searched_result\": \"oops\"}").is_none());
    // malformed JSON: dropped, no crash
    assert!(parse_result_line("{\"searched_result\": [\"/x/a.jpg\"").is_none());
    assert!(parse_result_line("{\"searched_result\": [}]").is_none());
    // trailing garbage after the object
    assert!(parse_result_line("{\"searched_result\": []} trailing").is_none());
}

#[test]
fn surrogate_escape_is_not_recognized() {
    assert!(parse_result_line("{\"searched_result\": [\"\\ud800\"]}").is_none());
    assert!(parse_result_line("{\"searched_result\": [\"\\uzzzz\"]}").is_none());
}

#[test]
fn control_characters_use_the_four_digit_escape() {
    assert_eq!(search_command("a\u{1f}b"), "{\"search_data\":\"a\\u001fb\"}");
    assert_eq!(search_command("n\nl"), "{\"search_data\":\"n\\nl\"}");
}

#[test]
fn non_string_elements_are_skipped() {
    let line = "{\"searched_result\": [\"/x/a.jpg\", 7, null, true, \"/x/b.jpg\"]}";
    let paths = parse_result_line(line).unwrap();
    assert_eq!(paths, vec!["/x/a.jpg".to_string(), "/x/b.jpg".to_string()]);
}

#[test]
fn duplicate_path_in_one_line_yields_one_record() {
    let line = "{\"searched_result\": [\"/x/a.jpg\", \"/x/a.jpg\"]}";
    let mut reg = DedupRegistry::new();
    let events = handle_output_line(line, "/t", &mut reg);
    assert_eq!(events.len(), 1);
    match &events[0] {
        Event::Batch { channel, records } => {
            assert_eq!(*channel, Channel::SearchedResult);
            assert_eq!(records.len(), 1);
            assert_eq!(records[0].file_path, "/x/a.jpg");
            assert_eq!(records[0].thumbnail_path, "/t/a.webp");
            assert_eq!(records[0].kind, MediaKind::Image);
            assert!(records[0].is_search_result);
            assert_eq!(records[0].id.chars().count(), 36);
        },
        _ => panic!("expected one batch of search records"),
    }
}

#[test]
fn already_sent_paths_produce_no_batch() {
    let mut reg = DedupRegistry::new();
    assert!(reg.insert_if_absent("/x/a.jpg"));
    let line = "{\"searched_result\": [\"/x/a.jpg\"]}";
    let events = handle_output_line(line, "/t", &mut reg);
    assert!(events.is_empty());
}

#[test]
fn milestone_lines_are_forwarded_verbatim() {
    let mut reg = DedupRegistry::new();
    let events = handle_output_line("Starting Index process now", "/t", &mut reg);
    assert_eq!(events.len(), 1);
    match &events[0] {
        Event::Text { channel, message } => {
            assert_eq!(*channel, Channel::IndexStatus);
            assert_eq!(message, "Starting Index process now");
        },
        _ => panic!("expected a status passthrough"),
    }
    let events2 = handle_output_line("Index Completed", "/t", &mut reg);
    assert_eq!(events2.len(), 1);
    let events3 = handle_output_line("unrelated noise", "/t", &mut reg);
    assert!(events3.is_empty());
}

#[test]
fn command_lines_are_compact_json() {
    assert_eq!(search_command("sunset"), "{\"search_data\":\"sunset\"}");
    assert_eq!(search_command("a \"b\" \\ c"), "{\"search_data\":\"a \\\"b\\\" \\\\ c\"}");
    assert_eq!(search_command("tab\there"), "{\"search_data\":\"tab\\there\"}");
    let args = start_python_args(&vec!["/a".to_string(), "/b c".to_string()]);
    assert_eq!(args, "{\"index\":true,\"priority_paths\":[\"/a\",\"/b c\"]}");
    let none = start_python_args(&Vec::new());
    assert_eq!(none, "{\"index\":true,\"priority_paths\":[]}");
}

#[test]
fn search_request_builds_command_and_control_events() {
    let mut reg = DedupRegistry::new();
    assert!(reg.insert_if_absent("/old"));
    let mut state = CancelState::Running;
    let (cmd, events, decision) = search_indexed_data("sunset", &mut reg, &mut state).unwrap();
    assert_eq!(cmd, "{\"search_data\":\"sunset\"}");
    assert_eq!(decision, CancelDecision::BeginWait);
    assert_eq!(state, CancelState::Cancelling);
    // the registry was cleared for the new result set
    assert!(!reg.contains_id("/old"));
    assert_eq!(events.len(), 2);
    match (&events[0], &events[1]) {
        (
            Event::Text { channel: c1, message: m1 },
            Event::Text { channel: c2, message: m2 },
        ) => {
            assert_eq!(*c1, Channel::StatusUpdate);
            assert_eq!(*c2, Channel::RemoveAllData);
            assert_eq!(m1, "Searching for: sunset");
            assert_eq!(m2, "Searching for: sunset");
        },
        _ => panic!("expected the two control events"),
    }
}

#[test]
fn blank_search_request_is_a_no_op() {
    let mut reg = DedupRegistry::new();
    assert!(reg.insert_if_absent("/old"));
    let mut state = CancelState::Idle;
    assert!(search_indexed_data("", &mut reg, &mut state).is_none());
    assert!(search_indexed_data("  \t \n ", &mut reg, &mut state).is_none());
    // nothing changed
    assert!(reg.contains_id("/old"));
    assert_eq!(state, CancelState::Idle);
}

#[test]
fn blankness_covers_all_of_unicode_whitespace() {
    // exactly the queries str::trim empties are no-ops
    let mut reg = DedupRegistry::new();
    assert!(reg.insert_if_absent("/old"));
    let mut state = CancelState::Running;
    for q in ["\u{b}", "\u{c}", "\u{a0}", "\u{85}", "\u{2003}\u{2028}", "\u{3000}"] {
        assert!(q.trim().is_empty());
        assert!(search_indexed_data(q, &mut reg, &mut state).is_none());
    }
    // the no-op left registry and state untouched
    assert!(reg.contains_id("/old"));
    assert_eq!(state, CancelState::Running);
    // a query that trim keeps goes through
    assert!(!"\u{200b}".trim().is_empty()); // zero-width space is not whitespace
    assert!(search_indexed_data("\u{200b}", &mut reg, &mut state).is_some());
}

#[test]
fn search_while_no_process_is_running_is_a_no_op() {
    // the scenario: a query is sent while no external process occupies the
    // slot; the command line is built but there is nowhere to write it, no
    // record is ever emitted, nothing fails
    let mut reg = DedupRegistry::new();
    let mut state = CancelState::Idle;
    let slot: ProcessSlot<u32> = ProcessSlot::empty();
    let (cmd, _events, _d) = search_indexed_data("sunset", &mut reg, &mut state).unwrap();
    assert_eq!(send_command_to_python(&slot, &cmd), None);
}

#[test]
fn command_to_occupied_slot_is_newline_terminated() {
    let mut slot: ProcessSlot<u32> = ProcessSlot::empty();
    assert!(slot.install(7).is_none());
    assert_eq!(
        send_command_to_python(&slot, "{\"search_data\":\"q\"}"),
        Some("{\"search_data\":\"q\"}\n".to_string())
    );
}

#[test]
fn index_command_goes_to_the_occupied_slot_only() {
    let mut slot: ProcessSlot<u32> = ProcessSlot::empty();
    assert_eq!(snaphound::supervisor::index_data(&slot), None);
    assert!(slot.install(3).is_none());
    assert_eq!(snaphound::supervisor::index_data(&slot), Some("{\"index\":true}\n".to_string()));
}

#[test]
fn slot_holds_at_most_one_process() {
    let mut slot: ProcessSlot<u32> = ProcessSlot::empty();
    assert!(!slot.is_occupied());
    assert_eq!(slot.install(1), None);
    assert!(slot.is_occupied());
    // a second spawn is rejected; the slot keeps the first handle
    assert_eq!(slot.install(2), Some(2));
    // stop takes sole ownership of the handle and empties the slot
    assert_eq!(stop_python_process(&mut slot), Some(1));
    assert!(!slot.is_occupied());
    // stopping an empty slot succeeds trivially
    assert_eq!(stop_python_process(&mut slot), None);
}

#[test]
fn cancellation_state_machine_transitions() {
    let mut s = CancelState::Idle;
    assert_eq!(cancel_list_files(&mut s), CancelDecision::NothingRunning);
    assert_eq!(s, CancelState::Idle);

    s = CancelState::Running;
    assert_eq!(cancel_list_files(&mut s), CancelDecision::BeginWait);
    assert_eq!(s, CancelState::Cancelling);
    assert_eq!(cancel_list_files(&mut s), CancelDecision::AlreadyCancelling);
    assert_eq!(s, CancelState::Cancelling);

    // the bounded wait ran out: the unacknowledged request is forced back
    assert!(force_reset(&mut s));
    assert_eq!(s, CancelState::Idle);
    assert!(!force_reset(&mut s));
}
