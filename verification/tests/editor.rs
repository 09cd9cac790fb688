use voidmap::encryption::{open_file, seal_file, Error};
use voidmap::logging::{init_screen_log, read_logs, LogLevel};
use voidmap::node::{node, plot_graph, Content, EditOp, Node};
use voidmap::screen::{Action, Anchor, Event, Key, Screen};
use voidmap::serialization::{deserialize_screen, serialize_screen};
use voidmap::{cost, distances, re_matches, Dir};

fn text_node(s: &str, children: Vec<Node>) -> Node {
    node(s, children)
}

fn content_eq(a: &Content, b: &Content) -> bool {
    match (a, b) {
        (Content::Text { text: ta }, Content::Text { text: tb }) => ta == tb,
        (Content::Plot(pa), Content::Plot(pb)) => pa == pb,
        _ => false,
    }
}

fn structurally_equal(a: &Node, b: &Node) -> bool {
    if !content_eq(&a.content, &b.content) || a.collapsed != b.collapsed {
        return false;
    }
    if a.children.len() != b.children.len() {
        return false;
    }
    for i in 0..a.children.len() {
        if !structurally_equal(&a.children[i], &b.children[i]) {
            return false;
        }
    }
    true
}

fn screens_structurally_equal(a: &Screen, b: &Screen) -> bool {
    if a.anchors.len() != b.anchors.len() {
        return false;
    }
    for i in 0..a.anchors.len() {
        if a.anchors[i].coords != b.anchors[i].coords {
            return false;
        }
        if !structurally_equal(&a.anchors[i].anchor.head, &b.anchors[i].anchor.head) {
            return false;
        }
    }
    true
}

#[test]
fn test_regex_parsing() {
    let re = regex::Regex::new(r"(\S+)").unwrap();
    assert_eq!(
        re_matches(&re, "yo ho ho"),
        vec!["yo".to_owned(), "ho".to_owned(), "ho".to_owned()]
    );
}

#[test]
fn test_regex_no_match_is_empty() {
    let re = regex::Regex::new(r"(\d+)").unwrap();
    assert_eq!(re_matches(&re, "no digits here"), Vec::<String>::new());
}

#[test]
fn test_distances_and_cost() {
    assert_eq!(distances((3, 7), (5, 2)), (2, 5));
    assert_eq!(cost((3, 7), (5, 2)), 7);
    assert_eq!(cost((4, 4), (4, 4)), 0);
    assert_ne!(Dir::L, Dir::R);
}

#[test]
fn test_height_collapsed_or_childless_is_one() {
    let leaf = text_node("leaf", vec![]);
    assert_eq!(leaf.height(), 1);
    let mut parent = text_node("parent", vec![text_node("a", vec![]), text_node("b", vec![])]);
    assert_eq!(parent.height(), 3);
    parent.toggle_collapsed();
    assert_eq!(parent.height(), 1);
    parent.toggle_collapsed();
    assert_eq!(parent.height(), 3);
}

#[test]
fn test_content_text_editing() {
    let mut c = Content::Text { text: vec!['h', 'i'] };
    assert_eq!(c.len(), 2);
    c.append('!');
    assert_eq!(c.len(), 3);
    c.backspace();
    c.backspace();
    c.backspace();
    assert_eq!(c.len(), 0);
    // backspace on empty text stays a no-op
    c.backspace();
    assert_eq!(c.len(), 0);
    let p = Content::Plot(vec![1, 2, 3]);
    assert_eq!(p.len(), 3);
    assert!(!p.is_text());
}

#[test]
fn test_plot_palette_glyphs() {
    let glyphs = plot_graph(&vec![1, 2, 5, 2, 3]);
    assert_eq!(glyphs.len(), 5);
    // the maximum sample renders as the highest palette level
    assert_eq!(glyphs[2], '█');
    // value 1 of max 5 renders low but not blank: floor(8*1/5) = 1
    assert_eq!(glyphs[0], '▁');
    assert_ne!(glyphs[0], ' ');
    // empty series renders nothing
    assert_eq!(plot_graph(&vec![]).len(), 0);
}

#[test]
fn test_node_delete_by_identity() {
    let mut root = text_node(
        "root",
        vec![text_node("a", vec![text_node("b", vec![])]), text_node("c", vec![])],
    );
    // hand out distinct identities
    root.id = 1;
    root.children[0].id = 2;
    root.children[0].children[0].id = 3;
    root.children[1].id = 4;
    // deleting an absent identity reports not-found and changes nothing
    assert!(!root.delete(99));
    assert_eq!(root.children.len(), 2);
    assert_eq!(root.children[0].children.len(), 1);
    // deleting a deep identity removes exactly that node
    assert!(root.delete(3));
    assert_eq!(root.children.len(), 2);
    assert_eq!(root.children[0].children.len(), 0);
    // deleting a direct child removes its whole subtree
    assert!(root.delete(2));
    assert_eq!(root.children.len(), 1);
    assert_eq!(root.children[0].id, 4);
}

#[test]
fn test_screen_scenario_create_select_child_delete() {
    let mut screen = Screen::default();
    let mut log = init_screen_log();
    // a pointer press on empty space creates an anchor with default text "new"
    let act = screen.handle_event(Event::PointerPress(3, 4), &mut log);
    assert_eq!(act, Action::Continue);
    assert_eq!(screen.anchors.len(), 1);
    assert_eq!(screen.anchors[0].coords, (3, 4));
    assert_eq!(screen.anchors[0].anchor.height(), 1);
    match &screen.anchors[0].anchor.head.content {
        Content::Text { text } => assert_eq!(text, &vec!['n', 'e', 'w']),
        _ => panic!("expected text content"),
    }
    // a click at the anchor's own coordinate selects the root node
    screen.handle_event(Event::PointerPress(3, 4), &mut log);
    assert!(screen.selection.is_some());
    assert!(screen.anchors[0].anchor.head.selected);
    // the create-child key appends one child "new"
    screen.handle_event(Event::KeyPress(Key::Char('\t')), &mut log);
    assert_eq!(screen.anchors[0].anchor.height(), 2);
    assert_eq!(screen.anchors[0].anchor.head.children.len(), 1);
    // select the child (its row is one below the anchor) and delete it
    screen.handle_event(Event::PointerPress(3, 5), &mut log);
    let child_id = screen.anchors[0].anchor.head.children[0].id;
    assert_eq!(screen.selection.unwrap().1, child_id);
    screen.handle_event(Event::KeyPress(Key::Delete), &mut log);
    assert_eq!(screen.anchors[0].anchor.height(), 1);
    assert_eq!(screen.anchors[0].anchor.head.children.len(), 0);
    assert!(screen.selection.is_none());
}

#[test]
fn test_screen_delete_root_removes_anchor() {
    let mut screen = Screen::default();
    let mut log = init_screen_log();
    screen.handle_event(Event::PointerPress(10, 10), &mut log);
    assert_eq!(screen.anchors.len(), 1);
    screen.handle_event(Event::PointerPress(10, 10), &mut log);
    assert!(screen.selection.is_some());
    screen.handle_event(Event::KeyPress(Key::Delete), &mut log);
    assert_eq!(screen.anchors.len(), 0);
    assert!(screen.selection.is_none());
}

#[test]
fn test_screen_append_and_backspace_edit_selected_text() {
    let mut screen = Screen::default();
    let mut log = init_screen_log();
    screen.handle_event(Event::PointerPress(2, 2), &mut log);
    screen.handle_event(Event::PointerPress(2, 2), &mut log);
    screen.handle_event(Event::KeyPress(Key::Char('!')), &mut log);
    match &screen.anchors[0].anchor.head.content {
        Content::Text { text } => assert_eq!(text, &vec!['n', 'e', 'w', '!']),
        _ => panic!("expected text content"),
    }
    screen.handle_event(Event::KeyPress(Key::Backspace), &mut log);
    screen.handle_event(Event::KeyPress(Key::Backspace), &mut log);
    match &screen.anchors[0].anchor.head.content {
        Content::Text { text } => assert_eq!(text, &vec!['n', 'e']),
        _ => panic!("expected text content"),
    }
}

#[test]
fn test_overlapping_anchors_later_coordinate_wins() {
    let mut screen = Screen::default();
    // anchor at (1,1) whose tree is three rows tall
    let tall = {
        let mut n = text_node(
            "first anchor with a long label",
            vec![text_node("x", vec![]), text_node("y", vec![])],
        );
        n.id = 1;
        n.children[0].id = 2;
        n.children[1].id = 3;
        n
    };
    screen.insert((1, 1), Anchor { head: tall });
    // anchor registered at the larger coordinate (2,2), inside the overlap
    let mut small = text_node("second", vec![]);
    small.id = 7;
    screen.insert((2, 2), Anchor { head: small });
    // a click in the overlapping region resolves to the later anchor
    let hit = screen.lookup((2, 2));
    assert_eq!(hit, Some(((2, 2), 7)));
    // clicking twice without mutation resolves identically
    assert_eq!(screen.lookup((2, 2)), hit);
}

#[test]
fn test_unrecognized_events_are_logged_not_fatal() {
    let mut screen = Screen::default();
    let mut log = init_screen_log();
    let act = screen.handle_event(Event::OtherMouse, &mut log);
    assert_eq!(act, Action::Continue);
    let lines = read_logs(&log);
    assert_eq!(lines.len(), 1);
    assert_eq!(lines[0], "WARN - unhandled mouse event");
    assert_eq!(screen.anchors.len(), 0);
}

#[test]
fn test_exit_key_requests_exit() {
    let mut screen = Screen::default();
    let mut log = init_screen_log();
    let act = screen.handle_event(Event::KeyPress(Key::AltEscape), &mut log);
    assert_eq!(act, Action::Exit);
}

#[test]
fn test_log_window_is_bounded() {
    let mut log = init_screen_log();
    for _ in 0..7 {
        log.log(LogLevel::Info, "message");
    }
    assert_eq!(read_logs(&log).len(), 5);
    log.log(LogLevel::Debug, "dropped");
    let lines = read_logs(&log);
    assert_eq!(lines.len(), 5);
    assert_eq!(lines[0], "INFO - message");
}

#[test]
fn test_draw_renders_rows_in_preorder() {
    let mut screen = Screen::default();
    let mut root = text_node("top", vec![text_node("kid", vec![])]);
    root.id = 1;
    root.children[0].id = 2;
    screen.insert((4, 6), Anchor { head: root });
    let lines = screen.draw();
    assert_eq!(lines.len(), 2);
    assert_eq!(lines[0].y, 6);
    assert_eq!(lines[1].y, 7);
    let top: String = lines[0].text.iter().collect();
    assert_eq!(top, "⚒ top");
    let kid: String = lines[1].text.iter().collect();
    assert_eq!(kid, "  └─ kid");
}

fn sample_screen() -> Screen {
    let mut screen = Screen::default();
    let plot = Node {
        content: Content::Plot(vec![1, 2, 5, 2, 3]),
        children: vec![],
        selected: false,
        collapsed: false,
        id: 0,
    };
    let mut bone = text_node("bone", vec![plot]);
    bone.collapsed = true;
    let one = text_node("one", vec![bone, text_node("zone", vec![])]);
    let header = text_node("header", vec![one, text_node("next", vec![]), text_node("other", vec![])]);
    screen.insert((3, 4), Anchor { head: header });
    screen.insert((40, 2), Anchor { head: text_node("solo", vec![]) });
    screen
}

#[test]
fn test_serialize_deserialize_round_trip() {
    let screen = sample_screen();
    let bytes = serialize_screen(&screen);
    let rebuilt = deserialize_screen(&bytes).expect("well-formed bytes must deserialize");
    assert!(screens_structurally_equal(&screen, &rebuilt));
    assert!(rebuilt.selection.is_none());
}

#[test]
fn test_round_trip_of_empty_screen() {
    let screen = Screen::default();
    let bytes = serialize_screen(&screen);
    let rebuilt = deserialize_screen(&bytes).expect("empty registry must deserialize");
    assert_eq!(rebuilt.anchors.len(), 0);
    // absent bytes are a fresh store, also an empty screen
    let fresh = deserialize_screen(&Vec::new()).expect("empty bytes are a fresh store");
    assert_eq!(fresh.anchors.len(), 0);
}

#[test]
fn test_encrypted_round_trip() {
    let screen = sample_screen();
    let bytes = serialize_screen(&screen);
    let sealed = seal_file("hint", bytes.clone()).expect("sealing must succeed");
    assert_eq!(sealed.len(), bytes.len() + 40);
    let opened = open_file("hint", sealed).expect("the right hint must decrypt");
    assert_eq!(opened, bytes);
    let rebuilt = deserialize_screen(&opened).expect("decrypted bytes must deserialize");
    assert!(screens_structurally_equal(&screen, &rebuilt));
}

#[test]
fn test_wrong_hint_and_truncation_fail_decryption() {
    let screen = sample_screen();
    let bytes = serialize_screen(&screen);
    let sealed = seal_file("right hint", bytes).expect("sealing must succeed");
    // a different hint never yields a silently wrong plaintext
    assert_eq!(open_file("wrong hint", sealed.clone()), Err(Error::DecryptionFailed));
    // truncated ciphertext always fails
    let mut truncated = sealed.clone();
    truncated.truncate(truncated.len() - 1);
    assert_eq!(open_file("right hint", truncated), Err(Error::DecryptionFailed));
    // corrupted ciphertext always fails
    let mut corrupted = sealed.clone();
    let last = corrupted.len() - 1;
    corrupted[last] ^= 0x01;
    assert_eq!(open_file("right hint", corrupted), Err(Error::DecryptionFailed));
}

#[test]
fn test_malformed_store_is_rejected() {
    let garbage: Vec<u8> = vec![9, 9, 9];
    assert!(deserialize_screen(&garbage).is_none());
}

fn flags_in_node(n: &Node) -> usize {
    let own = if n.selected { 1 } else { 0 };
    let mut total = own;
    for c in n.children.iter() {
        total += flags_in_node(c);
    }
    total
}

fn flags_in_screen(s: &Screen) -> usize {
    let mut total = 0;
    for e in s.anchors.iter() {
        total += flags_in_node(&e.anchor.head);
    }
    total
}

#[test]
fn test_at_most_one_node_selected() {
    let mut screen = Screen::default();
    let mut log = init_screen_log();
    assert_eq!(flags_in_screen(&screen), 0);
    // create two anchors, then click each in turn: the flag must move
    screen.handle_event(Event::PointerPress(2, 2), &mut log);
    screen.handle_event(Event::PointerPress(20, 2), &mut log);
    assert_eq!(flags_in_screen(&screen), 0);
    screen.handle_event(Event::PointerPress(2, 2), &mut log);
    assert_eq!(flags_in_screen(&screen), 1);
    assert!(screen.anchors[0].anchor.head.selected);
    screen.handle_event(Event::PointerPress(20, 2), &mut log);
    assert_eq!(flags_in_screen(&screen), 1);
    assert!(!screen.anchors[0].anchor.head.selected);
    assert!(screen.anchors[1].anchor.head.selected);
    // growing and editing under the selection never adds a flag
    screen.handle_event(Event::KeyPress(Key::Char('\t')), &mut log);
    screen.handle_event(Event::KeyPress(Key::Char('x')), &mut log);
    screen.handle_event(Event::KeyPress(Key::Char('\n')), &mut log);
    assert_eq!(flags_in_screen(&screen), 1);
    // deleting the selection leaves nothing flagged
    screen.handle_event(Event::KeyPress(Key::Delete), &mut log);
    assert_eq!(flags_in_screen(&screen), 0);
    assert!(screen.selection.is_none());
}

#[test]
fn test_round_trip_restores_no_selection() {
    let mut screen = Screen::default();
    let mut log = init_screen_log();
    screen.handle_event(Event::PointerPress(5, 5), &mut log);
    screen.handle_event(Event::PointerPress(5, 5), &mut log);
    assert_eq!(flags_in_screen(&screen), 1);
    let bytes = serialize_screen(&screen);
    let rebuilt = deserialize_screen(&bytes).expect("well-formed bytes must deserialize");
    // the selected flag is transient and not persisted
    assert_eq!(flags_in_screen(&rebuilt), 0);
    assert!(rebuilt.selection.is_none());
}

#[test]
fn test_apply_at_rejects_text_edits_on_plots() {
    let mut root = Node {
        content: Content::Plot(vec![4, 2]),
        children: vec![],
        selected: false,
        collapsed: false,
        id: 5,
    };
    assert!(root.apply_at(5, EditOp::Append('x')));
    match &root.content {
        Content::Plot(samples) => assert_eq!(samples, &vec![4, 2]),
        _ => panic!("plot content must stay a plot"),
    }
    assert!(root.apply_at(5, EditOp::Backspace));
    match &root.content {
        Content::Plot(samples) => assert_eq!(samples, &vec![4, 2]),
        _ => panic!("plot content must stay a plot"),
    }
}
