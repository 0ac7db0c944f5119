use glacier2obj::connect::game_connection::{EntityListState, GameConnection, Notice};

fn run(messages: &[&str]) -> (String, Vec<Option<Notice>>, bool) {
    let mut state = GameConnection::initial_state();
    let mut out = String::new();
    let mut notices = Vec::new();
    for m in messages {
        let (next, reaction) = GameConnection::handle_message(state, &m.to_string());
        state = next;
        out.push_str(&reaction.output);
        notices.push(reaction.notice);
        if reaction.finished {
            return (out, notices, true);
        }
    }
    (out, notices, false)
}

#[test]
fn complete_conversation_builds_document() {
    let (doc, notices, finished) = run(&[
        "welcome",
        "{\"type\":\"entityTreeRebuilt\"}",
        "{\"id\":\"a1\"}",
        "{\"id\":\"a2\"}",
        "Done sending entities.",
        "{\"id\":\"b1\"}",
        "Done sending entities.",
        "Done sending entities.",
        "ignored after the end",
    ]);
    assert!(finished);
    assert_eq!(
        doc,
        "{\"alocs\":[{\"id\":\"a1\"},\n{\"id\":\"a2\"}],\"pfBoxes\":[\n{\"id\":\"b1\"}],\"pfSeedPoints\":[\n]}\n"
    );
    assert_eq!(
        notices,
        vec![
            Some(Notice::Connected),
            Some(Notice::EntityTreeRebuilt),
            Some(Notice::FirstAloc),
            None,
            Some(Notice::AlocsDone),
            Some(Notice::FirstPfBox),
            Some(Notice::PfBoxesDone),
            Some(Notice::PfSeedPointsDone),
        ]
    );
}

#[test]
fn tree_rebuilt_changes_nothing() {
    let state = EntityListState { welcome_received: true, is_first: false, reading_alocs: false, reading_pf_boxes: true };
    let (next, reaction) = GameConnection::handle_message(state, &"{\"type\":\"entityTreeRebuilt\"}".to_string());
    assert_eq!(next, state);
    assert_eq!(reaction.output, "");
    assert_eq!(reaction.notice, Some(Notice::EntityTreeRebuilt));
    assert!(!reaction.finished);
}

#[test]
fn welcome_message_is_not_written() {
    let (next, reaction) = GameConnection::handle_message(GameConnection::initial_state(), &"hello there".to_string());
    assert!(next.welcome_received);
    assert_eq!(reaction.output, "{\"alocs\":[");
    assert_eq!(reaction.notice, Some(Notice::Connected));
}

#[test]
fn first_seed_point_has_no_separator() {
    let state = EntityListState { welcome_received: true, is_first: true, reading_alocs: false, reading_pf_boxes: false };
    let (next, reaction) = GameConnection::handle_message(state, &"{\"s\":1}".to_string());
    assert!(!next.is_first);
    assert_eq!(reaction.output, "{\"s\":1}");
    assert_eq!(reaction.notice, Some(Notice::FirstPfSeedPoint));
    let (_, second) = GameConnection::handle_message(next, &"{\"s\":2}".to_string());
    assert_eq!(second.output, ",\n{\"s\":2}");
    assert_eq!(second.notice, None);
}

#[test]
fn end_marker_before_welcome_closes_aloc_list() {
    let (next, reaction) = GameConnection::handle_message(GameConnection::initial_state(), &"Done sending entities.".to_string());
    assert!(!next.reading_alocs);
    assert!(next.reading_pf_boxes);
    assert!(!next.welcome_received);
    assert_eq!(reaction.output, "],\"pfBoxes\":[\n");
}

#[test]
fn protocol_messages() {
    assert_eq!(GameConnection::hello_message(), "{\"type\":\"hello\",\"identifier\":\"glacier2obj\"}");
    assert_eq!(
        GameConnection::entity_requests(),
        vec![
            "{\"type\":\"rebuildEntityTree\"}".to_string(),
            "{\"type\":\"listAlocEntities\"}".to_string(),
            "{\"type\":\"listPfBoxEntities\"}".to_string(),
            "{\"type\":\"listPfSeedPointEntities\"}".to_string(),
        ]
    );
    assert_eq!(GameConnection::editor_server_url(), "ws://localhost:46735/socket");
}

#[test]
fn finished_lists_are_not_read_again() {
    let mut state = GameConnection::initial_state();
    for m in ["welcome", "{\"a\":1}", "Done sending entities.", "{\"b\":1}", "Done sending entities.", "{\"c\":1}"] {
        let (next, _) = GameConnection::handle_message(state, &m.to_string());
        if state.welcome_received {
            assert!(next.welcome_received);
        }
        if !state.reading_alocs {
            assert!(!next.reading_alocs);
        }
        if !state.reading_alocs && !state.reading_pf_boxes {
            assert!(!next.reading_pf_boxes);
        }
        state = next;
    }
    assert!(state.welcome_received && !state.reading_alocs && !state.reading_pf_boxes);
}

#[test]
fn tree_notices_anywhere_leave_the_document_alone() {
    let plain = ["welcome", "{\"a\":1}", "Done sending entities.", "{\"b\":1}", "Done sending entities.", "Done sending entities."];
    let tree = "{\"type\":\"entityTreeRebuilt\"}";
    let noisy = [tree, "welcome", tree, "{\"a\":1}", "Done sending entities.", tree, tree, "{\"b\":1}", "Done sending entities.", "Done sending entities.", tree];
    let (doc1, _, done1) = run(&plain);
    let (doc2, _, done2) = run(&noisy);
    assert_eq!(doc1, doc2);
    assert_eq!(done1, done2);
    assert!(done1);
}
