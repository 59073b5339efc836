use helix_lsp::lsp;
use helix_lsp::selection::Range;
use helix_lsp::util::{
    generate_transaction_from_edits, lsp_pos_to_pos, lsp_range_to_range, pos_to_lsp_pos,
    range_to_lsp_range,
};
use helix_lsp::OffsetEncoding;

fn chars(s: &str) -> Vec<char> {
    s.chars().collect()
}

#[test]
fn converts_lsp_pos_to_pos() {
    fn test_case(doc: &str, x: u32, y: u32, want: Option<usize>) {
        let doc = chars(doc);
        let pos = lsp::Position::new(x, y);
        assert_eq!(want, lsp_pos_to_pos(&doc, pos, OffsetEncoding::Utf16));
        assert_eq!(want, lsp_pos_to_pos(&doc, pos, OffsetEncoding::Utf8))
    }

    test_case("", 0, 0, Some(0));
    test_case("", 0, 1, None);
    test_case("", 1, 0, None);
    test_case("\n\n", 0, 0, Some(0));
    test_case("\n\n", 1, 0, Some(1));
    test_case("\n\n", 1, 1, Some(2));
    test_case("\n\n", 2, 0, Some(2));
    test_case("\n\n", 3, 0, None);
    test_case("test\n\n\n\ncase", 4, 3, Some(11));
    test_case("test\n\n\n\ncase", 4, 4, Some(12));
    test_case("test\n\n\n\ncase", 4, 5, None);
    test_case("", u32::MAX, u32::MAX, None);
}

#[test]
fn protocol_position_to_offset_utf8() {
    // line 1 starts at offset 6, plus 2
    let doc = chars("line1\nline2");
    assert_eq!(lsp_pos_to_pos(&doc, lsp::Position::new(1, 2), OffsetEncoding::Utf8), Some(8));
}

#[test]
fn columns_count_code_units() {
    // 'é' is two UTF-8 bytes and one UTF-16 unit; '𝄞' is four bytes and two units
    let doc = chars("é𝄞x\ny");
    assert_eq!(pos_to_lsp_pos(&doc, 1, OffsetEncoding::Utf8), lsp::Position::new(0, 2));
    assert_eq!(pos_to_lsp_pos(&doc, 2, OffsetEncoding::Utf8), lsp::Position::new(0, 6));
    assert_eq!(pos_to_lsp_pos(&doc, 2, OffsetEncoding::Utf16), lsp::Position::new(0, 3));
    assert_eq!(pos_to_lsp_pos(&doc, 4, OffsetEncoding::Utf16), lsp::Position::new(1, 0));
    assert_eq!(lsp_pos_to_pos(&doc, lsp::Position::new(0, 6), OffsetEncoding::Utf8), Some(2));
    assert_eq!(lsp_pos_to_pos(&doc, lsp::Position::new(0, 3), OffsetEncoding::Utf16), Some(2));
    // a column inside a character names no offset
    assert_eq!(lsp_pos_to_pos(&doc, lsp::Position::new(0, 1), OffsetEncoding::Utf8), None);
    assert_eq!(lsp_pos_to_pos(&doc, lsp::Position::new(0, 2), OffsetEncoding::Utf16), None);
    // a column past the line's break names no offset
    assert_eq!(lsp_pos_to_pos(&doc, lsp::Position::new(0, 9), OffsetEncoding::Utf8), None);
}

#[test]
fn offset_round_trip_all_offsets() {
    for text in ["", "abc", "a\r\nb\rc\n", "é𝄞\n\nz", "\r\n\r\n"] {
        let doc = chars(text);
        for enc in [OffsetEncoding::Utf8, OffsetEncoding::Utf16] {
            for o in 0..=doc.len() {
                let p = pos_to_lsp_pos(&doc, o, enc);
                assert_eq!(lsp_pos_to_pos(&doc, p, enc), Some(o));
            }
        }
    }
}

#[test]
fn position_round_trip_within_lines() {
    let doc = chars("ab\r\ncd\ne");
    for enc in [OffsetEncoding::Utf8, OffsetEncoding::Utf16] {
        for (line, max) in [(0u32, 3u32), (1, 2), (2, 1)] {
            for character in 0..=max {
                let p = lsp::Position::new(line, character);
                let o = lsp_pos_to_pos(&doc, p, enc).unwrap();
                assert_eq!(pos_to_lsp_pos(&doc, o, enc), p);
            }
        }
    }
    // a column just past a line break names the start of the next line
    assert_eq!(lsp_pos_to_pos(&doc, lsp::Position::new(0, 4), OffsetEncoding::Utf8), Some(4));
    assert_eq!(pos_to_lsp_pos(&doc, 4, OffsetEncoding::Utf8), lsp::Position::new(1, 0));
}

#[test]
fn converts_ranges() {
    let doc = chars("ab\ncd");
    let r = range_to_lsp_range(&doc, Range::new(4, 1), OffsetEncoding::Utf16);
    assert_eq!(r.start, lsp::Position::new(0, 1));
    assert_eq!(r.end, lsp::Position::new(1, 1));
    let back = lsp_range_to_range(&doc, r, OffsetEncoding::Utf16).unwrap();
    assert_eq!(back, Range::new(1, 4));
    let bad = lsp::Range::new(lsp::Position::new(0, 0), lsp::Position::new(7, 0));
    assert_eq!(lsp_range_to_range(&doc, bad, OffsetEncoding::Utf16), None);
}

#[test]
fn edits_become_changes() {
    let doc = chars("hello\nworld");
    let edits = vec![
        lsp::TextEdit {
            range: lsp::Range::new(lsp::Position::new(0, 0), lsp::Position::new(0, 5)),
            new_text: "howdy".to_string(),
        },
        lsp::TextEdit {
            range: lsp::Range::new(lsp::Position::new(1, 0), lsp::Position::new(1, 5)),
            new_text: String::new(),
        },
        lsp::TextEdit {
            range: lsp::Range::new(lsp::Position::new(5, 0), lsp::Position::new(5, 1)),
            new_text: "x".to_string(),
        },
    ];
    let changes = generate_transaction_from_edits(&doc, edits, OffsetEncoding::Utf8);
    assert_eq!(
        changes,
        vec![(0, 5, Some("howdy".to_string())), (6, 11, None), (0, 0, None)]
    );
}
