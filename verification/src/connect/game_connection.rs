//! The editor-server conversation that produces a nav.json entity document.
//!
//! The socket and the file are handled by the caller; this module decides, for each
//! message the server sends, what is appended to the document and when the
//! conversation is over.
use vstd::prelude::*;

verus! {

/// Text the editor server sends after the last entity of each list.
pub open spec fn done_text() -> Seq<char> {
    "Done sending entities."@
}

/// Text the editor server sends once it has rebuilt its entity tree.
pub open spec fn tree_rebuilt_text() -> Seq<char> {
    "{\"type\":\"entityTreeRebuilt\"}"@
}

/// Opening of the document, written when the server's welcome arrives.
pub open spec fn opening_text() -> Seq<char> {
    "{\"alocs\":["@
}

/// Written between the ALOC list and the pf box list.
pub open spec fn pf_boxes_header_text() -> Seq<char> {
    "],\"pfBoxes\":[\n"@
}

/// Written between the pf box list and the pf seed point list.
pub open spec fn pf_seed_points_header_text() -> Seq<char> {
    "],\"pfSeedPoints\":[\n"@
}

/// Closing of the document.
pub open spec fn closing_text() -> Seq<char> {
    "]}\n"@
}

/// Written before every entity of a list but the first.
pub open spec fn separator_text() -> Seq<char> {
    ",\n"@
}

/// Unit type that groups the editor-server protocol.
pub struct GameConnection;

/// Where the conversation with the editor server stands.
#[derive(Clone, Copy, PartialEq, Eq, Structural, Debug)]
pub struct EntityListState {
    pub welcome_received: bool,
    pub is_first: bool,
    pub reading_alocs: bool,
    pub reading_pf_boxes: bool,
}

/// A status line that the caller shows to the user.
#[derive(Clone, Copy, PartialEq, Eq, Structural, Debug)]
pub enum Notice {
    EntityTreeRebuilt,
    Connected,
    FirstAloc,
    FirstPfBox,
    FirstPfSeedPoint,
    AlocsDone,
    PfBoxesDone,
    PfSeedPointsDone,
}

/// What the caller does after one message: append `output` to the document,
/// show `notice` if there is one, and close the connection when `finished`.
pub struct Reaction {
    pub output: String,
    pub notice: Option<Notice>,
    pub finished: bool,
}

/// The transition of the conversation on one message: next state, text appended to
/// the document, notice, and whether the conversation is over.
pub open spec fn spec_step(s: EntityListState, m: Seq<char>) -> (EntityListState, Seq<char>, Option<Notice>, bool) {
    if m == done_text() {
        if s.reading_alocs {
            (EntityListState { reading_alocs: false, reading_pf_boxes: true, is_first: true, ..s },
             pf_boxes_header_text(), Some(Notice::AlocsDone), false)
        } else if s.reading_pf_boxes {
            (EntityListState { reading_pf_boxes: false, is_first: true, ..s },
             pf_seed_points_header_text(), Some(Notice::PfBoxesDone), false)
        } else {
            (s, closing_text(), Some(Notice::PfSeedPointsDone), true)
        }
    } else if m == tree_rebuilt_text() {
        (s, Seq::empty(), Some(Notice::EntityTreeRebuilt), false)
    } else if s.welcome_received {
        if !s.is_first {
            (s, separator_text() + m, None, false)
        } else {
            let notice = if s.reading_alocs {
                Notice::FirstAloc
            } else if s.reading_pf_boxes {
                Notice::FirstPfBox
            } else {
                Notice::FirstPfSeedPoint
            };
            (EntityListState { is_first: false, ..s }, m, Some(notice), false)
        }
    } else {
        (EntityListState { welcome_received: true, ..s }, opening_text(), Some(Notice::Connected), false)
    }
}

/// State before the first message.
pub open spec fn spec_initial_state() -> EntityListState {
    EntityListState { welcome_received: false, is_first: true, reading_alocs: true, reading_pf_boxes: true }
}

/// The greeting the tool sends when it connects.
pub open spec fn hello_text() -> Seq<char> {
    "{\"type\":\"hello\",\"identifier\":\"glacier2obj\"}"@
}

/// The requests sent after the greeting, in order: rebuild the entity tree, then list the
/// ALOC, pf box and pf seed point entities.
pub open spec fn request_texts() -> Seq<Seq<char>> {
    seq![
        "{\"type\":\"rebuildEntityTree\"}"@,
        "{\"type\":\"listAlocEntities\"}"@,
        "{\"type\":\"listPfBoxEntities\"}"@,
        "{\"type\":\"listPfSeedPointEntities\"}"@,
    ]
}

/// The editor server's port.
pub const EDITOR_SERVER_PORT: u16 = 46735;

impl GameConnection {
    /// The greeting the tool sends when it connects.
    pub fn hello_message() -> (m: String)
        ensures
            m@ == hello_text(),
    {
        "{\"type\":\"hello\",\"identifier\":\"glacier2obj\"}".to_owned()
    }

    /// The requests that make the server send its entity lists, in the order they are sent.
    pub fn entity_requests() -> (ms: Vec<String>)
        ensures
            ms@.len() == request_texts().len(),
            forall|i: int| 0 <= i < ms@.len() ==> #[trigger] ms@[i]@ == request_texts()[i],
    {
        let ms = vec![
            "{\"type\":\"rebuildEntityTree\"}".to_owned(),
            "{\"type\":\"listAlocEntities\"}".to_owned(),
            "{\"type\":\"listPfBoxEntities\"}".to_owned(),
            "{\"type\":\"listPfSeedPointEntities\"}".to_owned(),
        ];
        ms
    }

    /// The editor server's WebSocket address.
    pub fn editor_server_url() -> (u: String)
        ensures
            u@ == "ws://localhost:46735/socket"@,
    {
        "ws://localhost:46735/socket".to_owned()
    }

    /// State of the conversation before the server has said anything.
    pub fn initial_state() -> (s: EntityListState)
        ensures
            s == spec_initial_state(),
    {
        EntityListState { welcome_received: false, is_first: true, reading_alocs: true, reading_pf_boxes: true }
    }

    /// Decides what one message from the editor server does to the document.
    pub fn handle_message(state: EntityListState, message: &String) -> (res: (EntityListState, Reaction))
        ensures
            spec_step(state, message@) == (res.0, res.1.output@, res.1.notice, res.1.finished),
    {
        let done = "Done sending entities.".to_owned();
        let rebuilt = "{\"type\":\"entityTreeRebuilt\"}".to_owned();
        if *message == done {
            if state.reading_alocs {
                let next = EntityListState { reading_alocs: false, reading_pf_boxes: true, is_first: true, ..state };
                (next, Reaction { output: "],\"pfBoxes\":[\n".to_owned(), notice: Some(Notice::AlocsDone), finished: false })
            } else if state.reading_pf_boxes {
                let next = EntityListState { reading_pf_boxes: false, is_first: true, ..state };
                (next, Reaction { output: "],\"pfSeedPoints\":[\n".to_owned(), notice: Some(Notice::PfBoxesDone), finished: false })
            } else {
                (state, Reaction { output: "]}\n".to_owned(), notice: Some(Notice::PfSeedPointsDone), finished: true })
            }
        } else if *message == rebuilt {
            (state, Reaction { output: String::new(), notice: Some(Notice::EntityTreeRebuilt), finished: false })
        } else if state.welcome_received {
            if !state.is_first {
                let mut out = ",\n".to_owned();
                out.append(message.as_str());
                (state, Reaction { output: out, notice: None, finished: false })
            } else {
                let notice = if state.reading_alocs {
                    Notice::FirstAloc
                } else if state.reading_pf_boxes {
                    Notice::FirstPfBox
                } else {
                    Notice::FirstPfSeedPoint
                };
                let next = EntityListState { is_first: false, ..state };
                (next, Reaction { output: message.clone(), notice: Some(notice), finished: false })
            }
        } else {
            let next = EntityListState { welcome_received: true, ..state };
            (next, Reaction { output: "{\"alocs\":[".to_owned(), notice: Some(Notice::Connected), finished: false })
        }
    }
}


/// The conversation over a sequence of messages, stopping at the message that ends it:
/// final state, everything appended to the document, and whether it ended.
pub open spec fn spec_run(s: EntityListState, msgs: Seq<Seq<char>>) -> (EntityListState, Seq<char>, bool)
    decreases msgs.len(),
{
    if msgs.len() == 0 {
        (s, Seq::empty(), false)
    } else {
        let r = spec_step(s, msgs[0]);
        if r.3 {
            (r.0, r.1, true)
        } else {
            let rest = spec_run(r.0, msgs.drop_first());
            (rest.0, r.1 + rest.1, rest.2)
        }
    }
}

/// Every entity of `items` preceded by the separator.
pub open spec fn separated(items: Seq<Seq<char>>) -> Seq<char>
    decreases items.len(),
{
    if items.len() == 0 {
        Seq::empty()
    } else {
        separator_text() + items[0] + separated(items.drop_first())
    }
}

/// The entities of `items` joined by the separator.
pub open spec fn joined(items: Seq<Seq<char>>) -> Seq<char> {
    if items.len() == 0 {
        Seq::empty()
    } else {
        items[0] + separated(items.drop_first())
    }
}

/// A message that the server sends as an entity: neither the end-of-list marker
/// nor the tree-rebuilt notice.
pub open spec fn is_entity_message(m: Seq<char>) -> bool {
    m != done_text() && m != tree_rebuilt_text()
}

/// The document that a complete conversation leaves behind.
pub open spec fn entity_document(alocs: Seq<Seq<char>>, pf_boxes: Seq<Seq<char>>, seeds: Seq<Seq<char>>) -> Seq<char> {
    opening_text() + joined(alocs) + pf_boxes_header_text() + joined(pf_boxes)
        + pf_seed_points_header_text() + joined(seeds) + closing_text()
}

proof fn lemma_done_ne_tree()
    ensures
        done_text() != tree_rebuilt_text(),
{
    reveal_strlit("Done sending entities.");
    reveal_strlit("{\"type\":\"entityTreeRebuilt\"}");
    assert(done_text()[0] != tree_rebuilt_text()[0]);
}

proof fn lemma_run_append(s: EntityListState, a: Seq<Seq<char>>, b: Seq<Seq<char>>)
    requires
        !spec_run(s, a).2,
    ensures
        spec_run(s, a + b) == ({
            let ra = spec_run(s, a);
            let rb = spec_run(ra.0, b);
            (rb.0, ra.1 + rb.1, rb.2)
        }),
    decreases a.len(),
{
    if a.len() == 0 {
        assert(a + b =~= b);
    } else {
        let r = spec_step(s, a[0]);
        assert((a + b)[0] == a[0]);
        assert((a + b).drop_first() =~= a.drop_first() + b);
        lemma_run_append(r.0, a.drop_first(), b);
        let ra = spec_run(s, a);
        let rb = spec_run(ra.0, b);
        let rest = spec_run(r.0, a.drop_first());
        assert(r.1 + (rest.1 + rb.1) =~= (r.1 + rest.1) + rb.1);
    }
}

proof fn lemma_run_separated(s: EntityListState, items: Seq<Seq<char>>)
    requires
        s.welcome_received,
        !s.is_first,
        forall|i: int| 0 <= i < items.len() ==> is_entity_message(#[trigger] items[i]),
    ensures
        spec_run(s, items) == (s, separated(items), false),
    decreases items.len(),
{
    if items.len() > 0 {
        assert(is_entity_message(items[0]));
        let tail = items.drop_first();
        assert forall|i: int| 0 <= i < tail.len() implies is_entity_message(#[trigger] tail[i]) by {
            assert(tail[i] == items[i + 1]);
        }
        lemma_run_separated(s, tail);
        assert(separator_text() + items[0] + separated(tail) =~= (separator_text() + items[0]) + separated(tail));
    }
}

proof fn lemma_run_list(s: EntityListState, items: Seq<Seq<char>>)
    requires
        s.welcome_received,
        s.is_first,
        forall|i: int| 0 <= i < items.len() ==> is_entity_message(#[trigger] items[i]),
    ensures
        spec_run(s, items).1 == joined(items),
        !spec_run(s, items).2,
        spec_run(s, items).0.reading_alocs == s.reading_alocs,
        spec_run(s, items).0.reading_pf_boxes == s.reading_pf_boxes,
        spec_run(s, items).0.welcome_received,
{
    if items.len() > 0 {
        assert(is_entity_message(items[0]));
        let tail = items.drop_first();
        assert forall|i: int| 0 <= i < tail.len() implies is_entity_message(#[trigger] tail[i]) by {
            assert(tail[i] == items[i + 1]);
        }
        let s1 = EntityListState { is_first: false, ..s };
        lemma_run_separated(s1, tail);
    }
}

proof fn lemma_run_done(s: EntityListState)
    requires
        s.welcome_received,
    ensures
        spec_run(s, seq![done_text()]) == ({
            let r = spec_step(s, done_text());
            (r.0, r.1, r.3)
        }),
{
    let m = seq![done_text()];
    let r = spec_step(s, done_text());
    assert(m[0] == done_text());
    if !r.3 {
        assert(m.drop_first() =~= Seq::<Seq<char>>::empty());
        assert(spec_run(r.0, m.drop_first()) == (r.0, Seq::<char>::empty(), false));
        assert(r.1 + Seq::<char>::empty() =~= r.1);
    }
}

/// The conversation only moves forward: once the welcome has arrived it stays received,
/// a list that is done is never read again, and the tree-rebuilt notice leaves the state
/// and the document as they are.
pub proof fn law_conversation_moves_forward(s: EntityListState, m: Seq<char>)
    ensures
        s.welcome_received ==> spec_step(s, m).0.welcome_received,
        !s.reading_alocs ==> !spec_step(s, m).0.reading_alocs,
        !s.reading_alocs && !s.reading_pf_boxes ==> !spec_step(s, m).0.reading_pf_boxes,
        m == tree_rebuilt_text() ==> spec_step(s, m) == (s, Seq::<char>::empty(), Some(Notice::EntityTreeRebuilt), false),
{
    lemma_done_ne_tree();
}

/// The messages of `msgs` other than the tree-rebuilt notice, in order.
pub open spec fn without_tree_notices(msgs: Seq<Seq<char>>) -> Seq<Seq<char>>
    decreases msgs.len(),
{
    if msgs.len() == 0 {
        Seq::empty()
    } else if msgs[0] == tree_rebuilt_text() {
        without_tree_notices(msgs.drop_first())
    } else {
        seq![msgs[0]] + without_tree_notices(msgs.drop_first())
    }
}

proof fn lemma_run_without_tree_notices(s: EntityListState, msgs: Seq<Seq<char>>)
    ensures
        spec_run(s, msgs) == spec_run(s, without_tree_notices(msgs)),
    decreases msgs.len(),
{
    if msgs.len() > 0 {
        lemma_done_ne_tree();
        let tail = msgs.drop_first();
        if msgs[0] == tree_rebuilt_text() {
            lemma_run_without_tree_notices(s, tail);
            let rest = spec_run(s, tail);
            assert(Seq::<char>::empty() + rest.1 =~= rest.1);
        } else {
            let r = spec_step(s, msgs[0]);
            let w = without_tree_notices(msgs);
            assert(w[0] == msgs[0]);
            assert(w.drop_first() =~= without_tree_notices(tail));
            if !r.3 {
                lemma_run_without_tree_notices(r.0, tail);
            }
        }
    }
}

/// Tree-rebuilt notices never matter: two message sequences that differ only by
/// tree-rebuilt notices, inserted or removed anywhere, leave the same state, write the same
/// document and end the conversation alike.
pub proof fn law_tree_notices_ignored(s: EntityListState, m1: Seq<Seq<char>>, m2: Seq<Seq<char>>)
    requires
        without_tree_notices(m1) == without_tree_notices(m2),
    ensures
        spec_run(s, m1) == spec_run(s, m2),
{
    lemma_run_without_tree_notices(s, m1);
    lemma_run_without_tree_notices(s, m2);
}

/// A complete conversation — the server's welcome, the ALOC transforms, the end
/// marker, the pf boxes, the end marker, the pf seed points and the end marker — leaves
/// the document `{"alocs":[...],"pfBoxes":[...],"pfSeedPoints":[...]}` with each list's
/// entities in the order received, separated by a comma and a newline, and the
/// conversation ends at the third end marker.
pub proof fn law_complete_conversation(
    welcome: Seq<char>,
    alocs: Seq<Seq<char>>,
    pf_boxes: Seq<Seq<char>>,
    seeds: Seq<Seq<char>>,
)
    requires
        is_entity_message(welcome),
        forall|i: int| 0 <= i < alocs.len() ==> is_entity_message(#[trigger] alocs[i]),
        forall|i: int| 0 <= i < pf_boxes.len() ==> is_entity_message(#[trigger] pf_boxes[i]),
        forall|i: int| 0 <= i < seeds.len() ==> is_entity_message(#[trigger] seeds[i]),
    ensures
        ({
            let msgs = seq![welcome] + alocs + seq![done_text()] + pf_boxes + seq![done_text()] + seeds
                + seq![done_text()];
            let r = spec_run(spec_initial_state(), msgs);
            r.1 == entity_document(alocs, pf_boxes, seeds) && r.2
        }),
{
    lemma_done_ne_tree();
    let s0 = spec_initial_state();
    let d = seq![done_text()];
    // welcome
    let w = seq![welcome];
    assert(w[0] == welcome);
    assert(w.drop_first() =~= Seq::<Seq<char>>::empty());
    let s1 = EntityListState { welcome_received: true, ..s0 };
    assert(spec_step(s0, welcome) == (s1, opening_text(), Some(Notice::Connected), false));
    assert(spec_run(s1, w.drop_first()) == (s1, Seq::<char>::empty(), false));
    assert(spec_run(s0, w) == (s1, opening_text() + Seq::<char>::empty(), false));
    assert(opening_text() + Seq::<char>::empty() =~= opening_text());
    // aloc list
    lemma_run_list(s1, alocs);
    let s2 = spec_run(s1, alocs).0;
    lemma_run_append(s0, w, alocs);
    let p1 = w + alocs;
    // first end marker
    lemma_run_done(s2);
    let s3 = spec_step(s2, done_text()).0;
    lemma_run_append(s0, p1, d);
    let p2 = p1 + d;
    // pf boxes
    lemma_run_list(s3, pf_boxes);
    let s4 = spec_run(s3, pf_boxes).0;
    lemma_run_append(s0, p2, pf_boxes);
    let p3 = p2 + pf_boxes;
    lemma_run_done(s4);
    let s5 = spec_step(s4, done_text()).0;
    lemma_run_append(s0, p3, d);
    let p4 = p3 + d;
    // pf seed points
    lemma_run_list(s5, seeds);
    let s6 = spec_run(s5, seeds).0;
    lemma_run_append(s0, p4, seeds);
    let p5 = p4 + seeds;
    lemma_run_done(s6);
    lemma_run_append(s0, p5, d);
    let msgs = seq![welcome] + alocs + seq![done_text()] + pf_boxes + seq![done_text()] + seeds
        + seq![done_text()];
    assert(msgs =~= p5 + d);
    let r = spec_run(s0, msgs);
    assert(r.1 =~= entity_document(alocs, pf_boxes, seeds));
}

} // verus!
