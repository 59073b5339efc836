use helix_lsp::position::{coords_at_pos, pos_at_coords, Position};

fn chars(s: &str) -> Vec<char> {
    s.chars().collect()
}

#[test]
fn test_ordering() {
    // (0, 5) is less than (1, 0)
    assert!(Position::new(0, 5) < Position::new(1, 0));
}

#[test]
fn test_coords_at_pos() {
    let text = chars("ḧëḷḷö\nẅöṛḷḋ");
    let slice = &text[..];
    assert_eq!(coords_at_pos(slice, 0), (0, 0).into());
    assert_eq!(coords_at_pos(slice, 5), (0, 5).into()); // position on \n
    assert_eq!(coords_at_pos(slice, 6), (1, 0).into()); // position on w
    assert_eq!(coords_at_pos(slice, 7), (1, 1).into()); // position on o
    assert_eq!(coords_at_pos(slice, 10), (1, 4).into()); // position on d

    // Test with wide characters.
    let text = chars("今日はいい\n");
    let slice = &text[..];
    assert_eq!(coords_at_pos(slice, 0), (0, 0).into());
    assert_eq!(coords_at_pos(slice, 1), (0, 1).into());
    assert_eq!(coords_at_pos(slice, 2), (0, 2).into());
    assert_eq!(coords_at_pos(slice, 3), (0, 3).into());
    assert_eq!(coords_at_pos(slice, 4), (0, 4).into());
    assert_eq!(coords_at_pos(slice, 5), (0, 5).into());
    assert_eq!(coords_at_pos(slice, 6), (1, 0).into());

    // Test with grapheme clusters.
    let text = chars("a̐éö̲\r\n");
    let slice = &text[..];
    assert_eq!(coords_at_pos(slice, 0), (0, 0).into());
    assert_eq!(coords_at_pos(slice, 2), (0, 1).into());
    assert_eq!(coords_at_pos(slice, 4), (0, 2).into());
    assert_eq!(coords_at_pos(slice, 7), (0, 3).into());
    assert_eq!(coords_at_pos(slice, 9), (1, 0).into());

    // Test with wide-character grapheme clusters.
    let text = chars("किमपि\n");
    let slice = &text[..];
    assert_eq!(coords_at_pos(slice, 0), (0, 0).into());
    assert_eq!(coords_at_pos(slice, 2), (0, 1).into());
    assert_eq!(coords_at_pos(slice, 3), (0, 2).into());
    assert_eq!(coords_at_pos(slice, 5), (0, 3).into());
    assert_eq!(coords_at_pos(slice, 6), (1, 0).into());

    // Test with tabs.
    let text = chars("\tHello\n");
    let slice = &text[..];
    assert_eq!(coords_at_pos(slice, 0), (0, 0).into());
    assert_eq!(coords_at_pos(slice, 1), (0, 1).into());
    assert_eq!(coords_at_pos(slice, 2), (0, 2).into());
}

#[test]
fn test_pos_at_coords() {
    let text = chars("ḧëḷḷö\nẅöṛḷḋ");
    let slice = &text[..];
    assert_eq!(pos_at_coords(slice, (0, 0).into(), false), 0);
    assert_eq!(pos_at_coords(slice, (0, 5).into(), false), 5); // position on \n
    assert_eq!(pos_at_coords(slice, (0, 6).into(), false), 6); // position after \n
    assert_eq!(pos_at_coords(slice, (0, 6).into(), true), 5); // position after \n
    assert_eq!(pos_at_coords(slice, (1, 0).into(), false), 6); // position on w
    assert_eq!(pos_at_coords(slice, (1, 1).into(), false), 7); // position on o
    assert_eq!(pos_at_coords(slice, (1, 4).into(), false), 10); // position on d

    // Test with wide characters.
    let text = chars("今日はいい\n");
    let slice = &text[..];
    assert_eq!(pos_at_coords(slice, (0, 0).into(), false), 0);
    assert_eq!(pos_at_coords(slice, (0, 1).into(), false), 1);
    assert_eq!(pos_at_coords(slice, (0, 2).into(), false), 2);
    assert_eq!(pos_at_coords(slice, (0, 3).into(), false), 3);
    assert_eq!(pos_at_coords(slice, (0, 4).into(), false), 4);
    assert_eq!(pos_at_coords(slice, (0, 5).into(), false), 5);
    assert_eq!(pos_at_coords(slice, (0, 6).into(), false), 6);
    assert_eq!(pos_at_coords(slice, (0, 6).into(), true), 5);
    assert_eq!(pos_at_coords(slice, (1, 0).into(), false), 6);

    // Test with grapheme clusters.
    let text = chars("a̐éö̲\r\n");
    let slice = &text[..];
    assert_eq!(pos_at_coords(slice, (0, 0).into(), false), 0);
    assert_eq!(pos_at_coords(slice, (0, 1).into(), false), 2);
    assert_eq!(pos_at_coords(slice, (0, 2).into(), false), 4);
    assert_eq!(pos_at_coords(slice, (0, 3).into(), false), 7); // \r\n is one char here
    assert_eq!(pos_at_coords(slice, (0, 4).into(), false), 9);
    assert_eq!(pos_at_coords(slice, (0, 4).into(), true), 7);
    assert_eq!(pos_at_coords(slice, (1, 0).into(), false), 9);

    // Test with wide-character grapheme clusters.
    let text = chars("किमपि");
    // 2 - 1 - 2 codepoints
    let slice = &text[..];
    assert_eq!(pos_at_coords(slice, (0, 0).into(), false), 0);
    assert_eq!(pos_at_coords(slice, (0, 1).into(), false), 2);
    assert_eq!(pos_at_coords(slice, (0, 2).into(), false), 3);
    assert_eq!(pos_at_coords(slice, (0, 3).into(), false), 5);
    assert_eq!(pos_at_coords(slice, (0, 3).into(), true), 5);

    // Test with tabs.
    let text = chars("\tHello\n");
    let slice = &text[..];
    assert_eq!(pos_at_coords(slice, (0, 0).into(), false), 0);
    assert_eq!(pos_at_coords(slice, (0, 1).into(), false), 1);
    assert_eq!(pos_at_coords(slice, (0, 2).into(), false), 2);
}

#[test]
fn position_basics() {
    let p = Position::new(3, 4);
    assert_eq!(p.row, 3);
    assert_eq!(p.col, 4);
    assert!(!p.is_zero());
    assert!(Position::new(0, 0).is_zero());
    assert!(!Position::new(0, 1).is_zero());
    assert_eq!(Position::from((7, 8)), Position::new(7, 8));
}

#[test]
fn traverse_counts_rows_and_columns() {
    let start = Position::new(1, 2);
    assert_eq!(start.traverse(&chars("ab")), Position::new(1, 4));
    assert_eq!(start.traverse(&chars("a\nbc")), Position::new(2, 2));
    // \r\n is a single line break
    assert_eq!(start.traverse(&chars("a\r\nb")), Position::new(2, 1));
    // a lone \r ends a line, also at the end
    assert_eq!(start.traverse(&chars("a\rb")), Position::new(2, 1));
    assert_eq!(start.traverse(&chars("a\r")), Position::new(2, 0));
    // other Unicode line terminators end a line too
    assert_eq!(start.traverse(&chars("x\u{2028}y")), Position::new(2, 1));
    assert_eq!(start.traverse(&[]), start);
}

#[test]
fn coords_past_and_at_end() {
    let text = chars("ab\ncd");
    assert_eq!(coords_at_pos(&text, 5), Position::new(1, 2));
    // a row past the end gives the end of the text
    assert_eq!(pos_at_coords(&text, Position::new(9, 0), false), 5);
    // a column past the end of the last row gives the row's end
    assert_eq!(pos_at_coords(&text, Position::new(1, 9), false), 5);
    assert_eq!(pos_at_coords(&text, Position::new(0, 9), false), 3);
    assert_eq!(pos_at_coords(&text, Position::new(0, 9), true), 2);
    let empty: Vec<char> = Vec::new();
    assert_eq!(coords_at_pos(&empty, 0), Position::new(0, 0));
    assert_eq!(pos_at_coords(&empty, Position::new(0, 3), false), 0);
}
