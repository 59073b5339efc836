use helix_lsp::changeset::Operation;
use helix_lsp::client::Client;
use helix_lsp::lsp;
use helix_lsp::util::lsp_pos_to_pos;
use helix_lsp::OffsetEncoding;

fn chars(s: &str) -> Vec<char> {
    s.chars().collect()
}

/// Applies change events one after another, as a server does.
fn apply_events(
    doc: &str,
    events: &[lsp::TextDocumentContentChangeEvent],
    enc: OffsetEncoding,
) -> String {
    let mut doc = chars(doc);
    for ev in events {
        match ev.range {
            None => doc = chars(&ev.text),
            Some(r) => {
                let a = lsp_pos_to_pos(&doc, r.start, enc).expect("start resolves");
                let b = lsp_pos_to_pos(&doc, r.end, enc).expect("end resolves");
                assert!(a <= b);
                let mut next: Vec<char> = doc[..a].to_vec();
                next.extend(ev.text.chars());
                next.extend_from_slice(&doc[b..]);
                doc = next;
            }
        }
    }
    doc.into_iter().collect()
}

fn range(l0: u32, c0: u32, l1: u32, c1: u32) -> Option<lsp::Range> {
    Some(lsp::Range::new(lsp::Position::new(l0, c0), lsp::Position::new(l1, c1)))
}

#[test]
fn delete_then_insert_is_one_replacement() {
    let old = chars("abc");
    let new = chars("axc");
    let ops = vec![
        Operation::Retain(1),
        Operation::Delete(1),
        Operation::Insert("x".to_string()),
        Operation::Retain(1),
    ];
    let events = Client::changeset_to_changes(&old, &new, &ops, OffsetEncoding::Utf8);
    assert_eq!(events.len(), 1);
    assert_eq!(events[0].range, range(0, 1, 0, 2));
    assert_eq!(events[0].text, "x");
    assert_eq!(apply_events("abc", &events, OffsetEncoding::Utf8), "axc");
}

#[test]
fn insert_then_delete_is_one_replacement() {
    let old = chars("abc");
    let new = chars("ayc");
    let ops = vec![
        Operation::Retain(1),
        Operation::Insert("y".to_string()),
        Operation::Delete(1),
        Operation::Retain(1),
    ];
    let events = Client::changeset_to_changes(&old, &new, &ops, OffsetEncoding::Utf16);
    assert_eq!(events.len(), 1);
    assert_eq!(events[0].range, range(0, 1, 0, 2));
    assert_eq!(events[0].text, "y");
}

#[test]
fn events_follow_earlier_events() {
    // two edits on two lines: the second event is placed in the document as
    // the first one left it
    let old_s = "one\ntwo\nthree";
    let new_s = "one!\n\nthree?";
    let old = chars(old_s);
    let new = chars(new_s);
    let ops = vec![
        Operation::Retain(3),
        Operation::Insert("!".to_string()),
        Operation::Retain(1),
        Operation::Delete(3),
        Operation::Retain(6),
        Operation::Insert("?".to_string()),
    ];
    for enc in [OffsetEncoding::Utf8, OffsetEncoding::Utf16] {
        let events = Client::changeset_to_changes(&old, &new, &ops, enc);
        assert_eq!(events.len(), 3);
        assert_eq!(events[0].range, range(0, 3, 0, 3));
        assert_eq!(events[1].range, range(1, 0, 1, 3));
        assert_eq!(events[1].text, "");
        assert_eq!(events[2].range, range(2, 5, 2, 5));
        assert_eq!(apply_events(old_s, &events, enc), new_s);
    }
}

#[test]
fn deletion_across_lines_and_wide_characters() {
    let old_s = "a𝄞\r\nb\ncé";
    let new_s = "aé";
    let old = chars(old_s);
    let new = chars(new_s);
    let ops = vec![
        Operation::Retain(1),
        Operation::Delete(6),
        Operation::Retain(1),
    ];
    let events = Client::changeset_to_changes(&old, &new, &ops, OffsetEncoding::Utf16);
    assert_eq!(events.len(), 1);
    assert_eq!(events[0].range, range(0, 1, 2, 1));
    assert_eq!(apply_events(old_s, &events, OffsetEncoding::Utf16), new_s);
    let events = Client::changeset_to_changes(&old, &new, &ops, OffsetEncoding::Utf8);
    assert_eq!(events[0].range, range(0, 1, 2, 1));
    assert_eq!(apply_events(old_s, &events, OffsetEncoding::Utf8), new_s);
}

#[test]
fn split_carriage_return_and_line_feed() {
    // inserting "\n" after a lone "\r" joins them into one break
    let old_s = "\rX";
    let new_s = "\r\nX";
    let ops = vec![Operation::Retain(1), Operation::Insert("\n".to_string()), Operation::Retain(1)];
    let events =
        Client::changeset_to_changes(&chars(old_s), &chars(new_s), &ops, OffsetEncoding::Utf8);
    assert_eq!(apply_events(old_s, &events, OffsetEncoding::Utf8), new_s);
}

#[test]
fn no_operations_no_events() {
    let events = Client::changeset_to_changes(&[], &[], &[], OffsetEncoding::Utf8);
    assert!(events.is_empty());
    let events = Client::changeset_to_changes(
        &chars("ab"),
        &chars("ab"),
        &[Operation::Retain(2)],
        OffsetEncoding::Utf8,
    );
    assert!(events.is_empty());
}
