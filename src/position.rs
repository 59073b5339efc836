//! Points of a text buffer as rows and columns.
//!
//! Rows are lines, ended by any Unicode line terminator (`\r\n` counts once).
//! `Position::traverse` counts columns in characters; `coords_at_pos` and
//! `pos_at_coords` count them in extended grapheme clusters of the line.
use vstd::prelude::*;
use vstd::string::StrSliceExecFns;
use unicode_segmentation::UnicodeSegmentation;
use crate::text::{advance, char_after, coord_at, is_break, is_line_terminator, walk, Metric};

verus! {

/// A single point in a text buffer, zero indexed. Ordered by row, then column.
#[derive(Debug, Default, Clone, Copy, PartialEq, Eq, Structural, PartialOrd, Ord, Hash)]
pub struct Position {
    pub row: usize,
    pub col: usize,
}

impl Position {
    pub fn new(row: usize, col: usize) -> (r: Position)
        ensures
            r.row == row,
            r.col == col,
    {
        Position { row, col }
    }

    pub fn is_zero(self) -> (r: bool)
        ensures
            r == (self.row == 0 && self.col == 0),
    {
        self.row == 0 && self.col == 0
    }

    /// The position reached from `self` by walking over `text`: a line
    /// terminator moves to the start of the next row, any other character one
    /// column right. A `\r` directly followed by `\n` does not end the row.
    pub fn traverse(self, text: &[char]) -> (r: Position)
        requires
            self.row + text@.len() <= usize::MAX,
            self.col + text@.len() <= usize::MAX,
        ensures
            (r.row as nat, r.col as nat) == advance(
                (self.row as nat, self.col as nat),
                text@,
                None,
                Metric::Chars,
            ),
    {
        let (row, col) = walk((self.row, self.col), text, 0, text.len(), None, Metric::Chars);
        proof {
            assert(text@.subrange(0, text@.len() as int) =~= text@);
        }
        Position { row, col }
    }
}

impl From<(usize, usize)> for Position {
    fn from(tuple: (usize, usize)) -> (r: Position) {
        Position { row: tuple.0, col: tuple.1 }
    }
}

impl vstd::std_specs::convert::FromSpecImpl<(usize, usize)> for Position {
    open spec fn obeys_from_spec() -> bool {
        true
    }

    open spec fn from_spec(v: (usize, usize)) -> Position {
        Position { row: v.0, col: v.1 }
    }
}

/// The extended grapheme clusters of a text, in order.
pub uninterp spec fn graphemes_of(s: Seq<char>) -> Seq<Seq<char>>;

/// Relies on `UnicodeSegmentation::graphemes(s, true)` of unicode-segmentation:
/// the extended grapheme clusters of the text in order, each non-empty, which
/// together make up the text.
#[verifier::external_body]
fn grapheme_clusters(chars: &[char]) -> (r: Vec<String>)
    ensures
        r@.map_values(|g: String| g@) == graphemes_of(chars@),
        r@.map_values(|g: String| g@).flatten() == chars@,
        forall|i: int| 0 <= i < r@.len() ==> (#[trigger] r@[i])@.len() > 0,
{
    let s: String = chars.iter().collect();
    s.graphemes(true).map(String::from).collect()
}

/// The offset where the row after the one holding offset `i` starts, or the
/// end of the text.
pub open spec fn next_line_start(t: Seq<char>, i: nat) -> nat
    decreases t.len() - i,
{
    if i >= t.len() {
        t.len()
    } else if is_break(t[i as int], char_after(t, i + 1 as int), Metric::Chars) {
        i + 1
    } else {
        next_line_start(t, i + 1)
    }
}

/// The offset where row `row` starts; the end of the text past the last row.
pub open spec fn line_start(t: Seq<char>, row: nat) -> nat
    decreases row,
{
    if row == 0 {
        0
    } else {
        next_line_start(t, line_start(t, (row - 1) as nat))
    }
}

/// The offset of the first line terminator at or after `i`, or the end of the text.
pub open spec fn content_end(t: Seq<char>, i: nat) -> nat
    decreases t.len() - i,
{
    if i >= t.len() {
        t.len()
    } else if is_line_terminator(t[i as int]) {
        i
    } else {
        content_end(t, i + 1)
    }
}

/// How many leading clusters fit, whole, in the first `k` characters.
pub open spec fn clusters_within(gs: Seq<Seq<char>>, k: int) -> nat
    decreases gs.len(),
{
    if gs.len() == 0 || gs[0].len() > k {
        0
    } else {
        1 + clusters_within(gs.drop_first(), k - gs[0].len())
    }
}

/// The number of characters in the first `n` clusters, or in all of them if fewer.
pub open spec fn leading_len(gs: Seq<Seq<char>>, n: nat) -> nat
    decreases gs.len(),
{
    if gs.len() == 0 || n == 0 {
        0
    } else {
        gs[0].len() + leading_len(gs.drop_first(), (n - 1) as nat)
    }
}

proof fn lemma_next_line_start_bounds(t: Seq<char>, i: nat)
    requires
        i <= t.len(),
    ensures
        i <= next_line_start(t, i) <= t.len(),
        i < t.len() ==> i < next_line_start(t, i),
    decreases t.len() - i,
{
    if i < t.len() && !is_break(t[i as int], char_after(t, i + 1 as int), Metric::Chars) {
        lemma_next_line_start_bounds(t, i + 1);
    }
}

proof fn lemma_content_end_bounds(t: Seq<char>, i: nat)
    requires
        i <= t.len(),
    ensures
        i <= content_end(t, i) <= t.len(),
    decreases t.len() - i,
{
    if i < t.len() && !is_line_terminator(t[i as int]) {
        lemma_content_end_bounds(t, i + 1);
    }
}

proof fn lemma_line_start_bounds(t: Seq<char>, row: nat)
    ensures
        line_start(t, row) <= t.len(),
    decreases row,
{
    if row > 0 {
        lemma_line_start_bounds(t, (row - 1) as nat);
        lemma_next_line_start_bounds(t, line_start(t, (row - 1) as nat));
    }
}

proof fn lemma_line_start_past_end(t: Seq<char>, a: nat, b: nat)
    requires
        a <= b,
        line_start(t, a) == t.len(),
    ensures
        line_start(t, b) == t.len(),
    decreases b - a,
{
    if a < b {
        lemma_line_start_past_end(t, a, (b - 1) as nat);
    }
}

proof fn lemma_leading_len_bound(gs: Seq<Seq<char>>, n: nat)
    ensures
        leading_len(gs, n) <= gs.flatten().len(),
    decreases gs.len(),
{
    if gs.len() > 0 {
        lemma_leading_len_bound(gs.drop_first(), if n > 0 {
            (n - 1) as nat
        } else {
            0
        });
    }
}

fn find_next_line_start(t: &[char], i: usize) -> (r: usize)
    requires
        i <= t@.len(),
    ensures
        r == next_line_start(t@, i as nat),
{
    let mut j: usize = i;
    while j < t.len()
        invariant
            i <= j <= t@.len(),
            next_line_start(t@, i as nat) == next_line_start(t@, j as nat),
        decreases t@.len() - j,
    {
        let after = if j + 1 < t.len() {
            Some(t[j + 1])
        } else {
            None
        };
        if crate::text::char_is_break(t[j], after, Metric::Chars) {
            return j + 1;
        }
        j = j + 1;
    }
    j
}

fn find_content_end(t: &[char], i: usize) -> (r: usize)
    requires
        i <= t@.len(),
    ensures
        r == content_end(t@, i as nat),
{
    let mut j: usize = i;
    while j < t.len()
        invariant
            i <= j <= t@.len(),
            content_end(t@, i as nat) == content_end(t@, j as nat),
        decreases t@.len() - j,
    {
        if crate::text::char_ends_line(t[j], Metric::Chars) {
            return j;
        }
        j = j + 1;
    }
    j
}

/// The offset where row `row` starts, or the end of the text past the last row.
fn line_to_char(t: &[char], row: usize) -> (r: usize)
    ensures
        r == line_start(t@, row as nat),
{
    let mut start: usize = 0;
    let mut k: usize = 0;
    while k < row
        invariant
            k <= row,
            start == line_start(t@, k as nat),
            start <= t@.len(),
        decreases row - k,
    {
        if start == t.len() {
            proof {
                lemma_line_start_past_end(t@, k as nat, row as nat);
            }
            return start;
        }
        proof {
            lemma_next_line_start_bounds(t@, start as nat);
        }
        start = find_next_line_start(t, start);
        k = k + 1;
    }
    start
}

/// Counts the leading clusters that fit, whole, in the first `k` characters.
fn count_clusters_within(gs: &Vec<String>, k: usize) -> (r: usize)
    ensures
        r == clusters_within(gs@.map_values(|g: String| g@), k as int),
{
    let ghost views = gs@.map_values(|g: String| g@);
    let mut i: usize = 0;
    let mut rem: usize = k;
    proof {
        assert(views.skip(0) =~= views);
    }
    while i < gs.len()
        invariant
            i <= gs@.len(),
            views == gs@.map_values(|g: String| g@),
            i + clusters_within(views.skip(i as int), rem as int) == clusters_within(views, k as int),
        decreases gs@.len() - i,
    {
        let len = gs[i].as_str().unicode_len();
        proof {
            assert(views.skip(i as int).drop_first() =~= views.skip(i + 1));
            assert(views.skip(i as int)[0] == gs@[i as int]@);
        }
        if len > rem {
            return i;
        }
        rem = rem - len;
        i = i + 1;
    }
    proof {
        assert(views.skip(i as int).len() == 0);
    }
    i
}

/// The number of characters in the first `n` clusters of `gs`.
fn leading_clusters_len(gs: &Vec<String>, n: usize, bound: Ghost<nat>) -> (r: usize)
    requires
        gs@.map_values(|g: String| g@).flatten().len() <= bound@,
        bound@ <= usize::MAX,
    ensures
        r == leading_len(gs@.map_values(|g: String| g@), n as nat),
{
    let ghost views = gs@.map_values(|g: String| g@);
    let mut i: usize = 0;
    let mut acc: usize = 0;
    proof {
        assert(views.skip(0) =~= views);
        lemma_leading_len_bound(views, n as nat);
    }
    while i < gs.len() && i < n
        invariant
            i <= gs@.len(),
            i <= n,
            views == gs@.map_values(|g: String| g@),
            leading_len(views, n as nat) <= usize::MAX,
            acc + leading_len(views.skip(i as int), (n - i) as nat) == leading_len(views, n as nat),
        decreases gs@.len() - i,
    {
        let len = gs[i].as_str().unicode_len();
        proof {
            assert(views.skip(i as int).drop_first() =~= views.skip(i + 1));
            assert(views.skip(i as int)[0] == gs@[i as int]@);
        }
        acc = acc + len;
        i = i + 1;
    }
    proof {
        if i == gs.len() {
            assert(views.skip(i as int).len() == 0);
        }
    }
    acc
}

/// Converts a character index to (row, column) coordinates, the column
/// counted in grapheme clusters of its row: the clusters of the row that end
/// at or before `pos`.
pub fn coords_at_pos(text: &[char], pos: usize) -> (r: Position)
    requires
        pos <= text@.len(),
    ensures
        r.row == coord_at(text@, pos as nat, Metric::Chars).0,
        r.col == clusters_within(
            graphemes_of(
                text@.subrange(
                    line_start(text@, r.row as nat) as int,
                    next_line_start(text@, line_start(text@, r.row as nat)) as int,
                ),
            ),
            pos - line_start(text@, r.row as nat),
        ),
{
    let after = if pos < text.len() {
        Some(text[pos])
    } else {
        None
    };
    let (row, _col) = walk((0, 0), text, 0, pos, after, Metric::Chars);
    proof {
        assert(text@.subrange(0, pos as int) =~= text@.take(pos as int));
    }
    let start = line_to_char(text, row);
    proof {
        lemma_line_start_bounds(text@, row as nat);
        lemma_next_line_start_bounds(text@, start as nat);
    }
    let end = find_next_line_start(text, start);
    let clusters = grapheme_clusters(&text[start..end]);
    let col = if pos >= start {
        count_clusters_within(&clusters, pos - start)
    } else {
        0
    };
    Position { row, col }
}

/// Converts (row, column) coordinates to a character index, the column
/// counted in grapheme clusters. A row past the end gives the end of the
/// text. A column past the end of its row gives the row's end: just before
/// its line terminator when `limit_before_line_ending`, else just after it.
pub fn pos_at_coords(text: &[char], coords: Position, limit_before_line_ending: bool) -> (r: usize)
    ensures
        r == line_start(text@, coords.row as nat) + leading_len(
            graphemes_of(
                text@.subrange(
                    line_start(text@, coords.row as nat) as int,
                    (if limit_before_line_ending {
                        content_end(text@, line_start(text@, coords.row as nat))
                    } else {
                        next_line_start(text@, line_start(text@, coords.row as nat))
                    }) as int,
                ),
            ),
            coords.col as nat,
        ),
{
    let start = line_to_char(text, coords.row);
    proof {
        lemma_line_start_bounds(text@, coords.row as nat);
        lemma_next_line_start_bounds(text@, start as nat);
        lemma_content_end_bounds(text@, start as nat);
    }
    let end = if limit_before_line_ending {
        find_content_end(text, start)
    } else {
        find_next_line_start(text, start)
    };
    let line = &text[start..end];
    let clusters = grapheme_clusters(line);
    let offset = leading_clusters_len(&clusters, coords.col, Ghost((end - start) as nat));
    proof {
        lemma_leading_len_bound(clusters@.map_values(|g: String| g@), coords.col as nat);
    }
    start + offset
}

} // verus!
