//! Conversion between character offsets in a document and protocol positions.
//!
//! A protocol position names a line and a column counted in the connection's
//! offset encoding. Converting from a position is exact: a position whose
//! line or column lies outside the document gives no offset. A column may
//! reach just past a line's break, which names the start of the next line.
use vstd::prelude::*;
use crate::lsp;
use crate::selection::Range;
use crate::text::{
    char_after, char_is_break, char_width, coord_at, is_break, lemma_coord_increasing,
    lemma_coord_step, walk, width, Metric,
};
use crate::OffsetEncoding;

verus! {

/// The largest document, in characters, whose positions all fit the protocol's
/// 32-bit lines and columns.
pub const MAX_DOC_CHARS: usize = 0x3fff_ffff;

pub open spec fn metric_of(enc: OffsetEncoding) -> Metric {
    match enc {
        OffsetEncoding::Utf8 => Metric::Utf8,
        OffsetEncoding::Utf16 => Metric::Utf16,
    }
}

pub fn metric(enc: OffsetEncoding) -> (r: Metric)
    ensures
        r == metric_of(enc),
{
    match enc {
        OffsetEncoding::Utf8 => Metric::Utf8,
        OffsetEncoding::Utf16 => Metric::Utf16,
    }
}

/// The protocol position of offset `o` in `doc`.
pub open spec fn lsp_coord(doc: Seq<char>, o: nat, enc: OffsetEncoding) -> (nat, nat) {
    coord_at(doc, o, metric_of(enc))
}

/// Offset `o` lies directly after a line break.
pub open spec fn ends_line_break(doc: Seq<char>, o: nat, enc: OffsetEncoding) -> bool {
    0 < o <= doc.len() && is_break(doc[o - 1], char_after(doc, o as int), metric_of(enc))
}

/// The position of offset `o` counted on the line whose break ends at `o`.
pub open spec fn past_break_coord(doc: Seq<char>, o: nat, enc: OffsetEncoding) -> (nat, nat) {
    let q = lsp_coord(doc, (o - 1) as nat, enc);
    (q.0, q.1 + width(doc[o - 1], metric_of(enc)))
}

/// Position `p` names offset `o` of `doc`.
pub open spec fn resolves(doc: Seq<char>, p: (nat, nat), o: nat, enc: OffsetEncoding) -> bool {
    &&& o <= doc.len()
    &&& lsp_coord(doc, o, enc) == p || (ends_line_break(doc, o, enc) && past_break_coord(doc, o, enc)
        == p)
}

/// The offset that position `p` names in `doc`, if any.
pub open spec fn lsp_offset(doc: Seq<char>, p: (nat, nat), enc: OffsetEncoding) -> Option<nat> {
    if exists|o: nat| resolves(doc, p, o, enc) {
        Some(choose|o: nat| resolves(doc, p, o, enc))
    } else {
        None
    }
}

proof fn lemma_ordered_resolves_equal(
    doc: Seq<char>,
    p: (nat, nat),
    a: nat,
    b: nat,
    enc: OffsetEncoding,
)
    requires
        a <= b,
        resolves(doc, p, a, enc),
        resolves(doc, p, b, enc),
    ensures
        a == b,
{
    if a == b {
        return;
    }
    let m = metric_of(enc);
    lemma_coord_increasing(doc, a, b, m);
    if a < b - 1 {
        lemma_coord_increasing(doc, a, (b - 1) as nat, m);
    }
    if ends_line_break(doc, a, enc) {
        lemma_coord_step(doc, (a - 1) as nat, m);
    }
    if ends_line_break(doc, b, enc) {
        lemma_coord_step(doc, (b - 1) as nat, m);
    }
}

/// A position names at most one offset.
pub proof fn lemma_resolves_unique(doc: Seq<char>, p: (nat, nat), a: nat, b: nat, enc: OffsetEncoding)
    requires
        resolves(doc, p, a, enc),
        resolves(doc, p, b, enc),
    ensures
        a == b,
{
    if a <= b {
        lemma_ordered_resolves_equal(doc, p, a, b, enc);
    } else {
        lemma_ordered_resolves_equal(doc, p, b, a, enc);
    }
}

/// The offset named by a position that names `o` is `o`.
pub proof fn lemma_lsp_offset_of(doc: Seq<char>, p: (nat, nat), o: nat, enc: OffsetEncoding)
    requires
        resolves(doc, p, o, enc),
    ensures
        lsp_offset(doc, p, enc) == Some(o),
{
    let c = choose|x: nat| resolves(doc, p, x, enc);
    lemma_resolves_unique(doc, p, c, o, enc);
}

/// Round trip from an offset: converting an in-bounds offset to a protocol
/// position and back gives the same offset, in either encoding.
pub proof fn lemma_offset_round_trip(doc: Seq<char>, o: nat, enc: OffsetEncoding)
    requires
        o <= doc.len(),
    ensures
        lsp_offset(doc, lsp_coord(doc, o, enc), enc) == Some(o),
{
    lemma_lsp_offset_of(doc, lsp_coord(doc, o, enc), o, enc);
}

/// Round trip from a position: a position that names an offset converts back
/// to itself, unless it is the column just past a line break, whose offset is
/// the start of the next line.
pub proof fn lemma_position_round_trip(doc: Seq<char>, p: (nat, nat), enc: OffsetEncoding)
    requires
        lsp_offset(doc, p, enc) is Some,
        !(ends_line_break(doc, lsp_offset(doc, p, enc)->0, enc) && past_break_coord(
            doc,
            lsp_offset(doc, p, enc)->0,
            enc,
        ) == p),
    ensures
        lsp_coord(doc, lsp_offset(doc, p, enc)->0, enc) == p,
{
}

/// Converts a protocol position to an offset in `doc`; `None` when the line
/// or the column lies outside the document.
pub fn lsp_pos_to_pos(doc: &[char], pos: lsp::Position, offset_encoding: OffsetEncoding) -> (r:
    Option<usize>)
    requires
        doc@.len() <= MAX_DOC_CHARS,
    ensures
        match r {
            Some(o) => lsp_offset(doc@, pos@, offset_encoding) == Some(o as nat),
            None => lsp_offset(doc@, pos@, offset_encoding) is None,
        },
{
    let m = metric(offset_encoding);
    let target_line = pos.line as usize;
    let target_col = pos.character as usize;
    let mut line: usize = 0;
    let mut col: usize = 0;
    let mut i: usize = 0;
    proof {
        assert(doc@.take(0) =~= Seq::<char>::empty());
    }
    loop
        invariant
            i <= doc@.len(),
            doc@.len() <= MAX_DOC_CHARS,
            m == metric_of(offset_encoding),
            target_line == pos.line,
            target_col == pos.character,
            line <= i,
            col <= 4 * i,
            (line as nat, col as nat) == coord_at(doc@, i as nat, m),
            forall|j: nat| j < i ==> !resolves(doc@, pos@, j, offset_encoding),
            forall|j: nat|
                j <= i ==> !(#[trigger] ends_line_break(doc@, j, offset_encoding) && past_break_coord(
                    doc@,
                    j,
                    offset_encoding,
                ) == pos@),
        decreases doc@.len() - i,
    {
        if line == target_line && col == target_col {
            proof {
                lemma_lsp_offset_of(doc@, pos@, i as nat, offset_encoding);
            }
            return Some(i);
        }
        if i == doc.len() {
            proof {
                assert forall|j: nat| !resolves(doc@, pos@, j, offset_encoding) by {
                    if j <= i {
                        assert(!(ends_line_break(doc@, j, offset_encoding) && past_break_coord(
                            doc@,
                            j,
                            offset_encoding,
                        ) == pos@));
                    }
                }
            }
            return None;
        }
        let c = doc[i];
        let after = if i + 1 < doc.len() {
            Some(doc[i + 1])
        } else {
            None
        };
        let w = char_width(c, m);
        proof {
            lemma_coord_step(doc@, i as nat, m);
            assert(!(ends_line_break(doc@, i as nat, offset_encoding) && past_break_coord(
                doc@,
                i as nat,
                offset_encoding,
            ) == pos@));
        }
        if char_is_break(c, after, m) {
            if line == target_line && col + w == target_col {
                proof {
                    assert(resolves(doc@, pos@, (i + 1) as nat, offset_encoding));
                    lemma_lsp_offset_of(doc@, pos@, (i + 1) as nat, offset_encoding);
                }
                return Some(i + 1);
            }
            line = line + 1;
            col = 0;
        } else {
            col = col + w;
        }
        i = i + 1;
    }
}

/// Converts an offset in `doc` to its protocol position.
pub fn pos_to_lsp_pos(doc: &[char], pos: usize, offset_encoding: OffsetEncoding) -> (r: lsp::Position)
    requires
        pos <= doc@.len(),
        doc@.len() <= MAX_DOC_CHARS,
    ensures
        r@ == lsp_coord(doc@, pos as nat, offset_encoding),
{
    let after = if pos < doc.len() {
        Some(doc[pos])
    } else {
        None
    };
    let (line, col) = walk((0, 0), doc, 0, pos, after, metric(offset_encoding));
    proof {
        assert(doc@.subrange(0, pos as int) =~= doc@.take(pos as int));
    }
    lsp::Position::new(line as u32, col as u32)
}

/// Converts a selection range of `doc` to a protocol range, start first.
pub fn range_to_lsp_range(doc: &[char], range: Range, offset_encoding: OffsetEncoding) -> (r:
    lsp::Range)
    requires
        range.anchor <= doc@.len(),
        range.head <= doc@.len(),
        doc@.len() <= MAX_DOC_CHARS,
    ensures
        r.start@ == lsp_coord(doc@, range.from_spec() as nat, offset_encoding),
        r.end@ == lsp_coord(doc@, range.to_spec() as nat, offset_encoding),
{
    let start = pos_to_lsp_pos(doc, range.from(), offset_encoding);
    let end = pos_to_lsp_pos(doc, range.to(), offset_encoding);
    lsp::Range::new(start, end)
}

/// Converts a protocol range to a selection range of `doc`; `None` when either
/// end names no offset.
pub fn lsp_range_to_range(doc: &[char], range: lsp::Range, offset_encoding: OffsetEncoding) -> (r:
    Option<Range>)
    requires
        doc@.len() <= MAX_DOC_CHARS,
    ensures
        match r {
            Some(s) => lsp_offset(doc@, range.start@, offset_encoding) == Some(s.anchor as nat)
                && lsp_offset(doc@, range.end@, offset_encoding) == Some(s.head as nat),
            None => lsp_offset(doc@, range.start@, offset_encoding) is None || lsp_offset(
                doc@,
                range.end@,
                offset_encoding,
            ) is None,
        },
{
    let start = match lsp_pos_to_pos(doc, range.start, offset_encoding) {
        Some(s) => s,
        None => return None,
    };
    let end = match lsp_pos_to_pos(doc, range.end, offset_encoding) {
        Some(e) => e,
        None => return None,
    };
    Some(Range::new(start, end))
}

/// The change that one server edit makes: the replaced offsets and the new
/// text, `None` for an empty one; an edit whose range names no offsets
/// changes nothing.
pub open spec fn edit_change(doc: Seq<char>, edit: lsp::TextEdit, enc: OffsetEncoding) -> (
    nat,
    nat,
    Option<Seq<char>>,
) {
    match (lsp_offset(doc, edit.range.start@, enc), lsp_offset(doc, edit.range.end@, enc)) {
        (Some(s), Some(e)) => (s, e, if edit.new_text@.len() == 0 {
            None
        } else {
            Some(edit.new_text@)
        }),
        _ => (0, 0, None),
    }
}

/// The view of a change as offsets and replacement text.
pub open spec fn change_view(c: (usize, usize, Option<String>)) -> (nat, nat, Option<Seq<char>>) {
    (c.0 as nat, c.1 as nat, match c.2 {
        Some(t) => Some(t@),
        None => None,
    })
}

/// Turns server edits into the changes, as offsets of `doc`, that a
/// transaction over `doc` is built from, one change per edit in order.
pub fn generate_transaction_from_edits(
    doc: &[char],
    edits: Vec<lsp::TextEdit>,
    offset_encoding: OffsetEncoding,
) -> (r: Vec<(usize, usize, Option<String>)>)
    requires
        doc@.len() <= MAX_DOC_CHARS,
    ensures
        r@.len() == edits@.len(),
        forall|i: int|
            0 <= i < r@.len() ==> change_view(#[trigger] r@[i]) == edit_change(
                doc@,
                edits@[i],
                offset_encoding,
            ),
{
    let mut changes: Vec<(usize, usize, Option<String>)> = Vec::new();
    let mut i: usize = 0;
    while i < edits.len()
        invariant
            i <= edits@.len(),
            doc@.len() <= MAX_DOC_CHARS,
            changes@.len() == i,
            forall|k: int|
                0 <= k < i ==> change_view(#[trigger] changes@[k]) == edit_change(
                    doc@,
                    edits@[k],
                    offset_encoding,
                ),
        decreases edits@.len() - i,
    {
        let edit = &edits[i];
        let start = lsp_pos_to_pos(doc, edit.range.start, offset_encoding);
        let end = lsp_pos_to_pos(doc, edit.range.end, offset_encoding);
        let change = match (start, end) {
            (Some(s), Some(e)) => {
                let replacement = if edit.new_text.as_str().unicode_len() == 0 {
                    None
                } else {
                    Some(edit.new_text.clone())
                };
                (s, e, replacement)
            },
            _ => (0, 0, None),
        };
        changes.push(change);
        i = i + 1;
    }
    changes
}

} // verus!
