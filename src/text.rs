//! Line and column arithmetic over a text held as a sequence of characters.
//!
//! A coordinate is a pair `(line, column)`. Walking a text character by
//! character, a character that ends a line moves to the start of the next
//! line; any other character advances the column by its width in the chosen
//! unit. A carriage return directly followed by a line feed does not end the
//! line by itself: the pair counts as one line break.
use vstd::prelude::*;

verus! {

/// How columns are counted and which characters end a line.
#[derive(Clone, Copy, Debug, PartialEq, Eq, Structural)]
pub enum Metric {
    /// Columns in characters; a line ends at any Unicode line terminator.
    Chars,
    /// Columns in UTF-8 bytes; a line ends at `\n`, `\r` or `\r\n`.
    Utf8,
    /// Columns in UTF-16 code units; a line ends at `\n`, `\r` or `\r\n`.
    Utf16,
}

/// Width of one character in the metric's unit.
pub open spec fn width(c: char, m: Metric) -> nat {
    match m {
        Metric::Chars => 1,
        Metric::Utf8 => if (c as u32) < 0x80 {
            1
        } else if (c as u32) < 0x800 {
            2
        } else if (c as u32) < 0x10000 {
            3
        } else {
            4
        },
        Metric::Utf16 => if (c as u32) < 0x10000 {
            1
        } else {
            2
        },
    }
}

/// The Unicode line terminators: LF, VT, FF, CR, NEL, LS and PS.
pub open spec fn is_line_terminator(c: char) -> bool {
    c == '\n' || c == '\u{0B}' || c == '\u{0C}' || c == '\r' || c == '\u{85}' || c == '\u{2028}'
        || c == '\u{2029}'
}

/// Whether `c` is one of the characters that end a line under `m`.
pub open spec fn ends_line(c: char, m: Metric) -> bool {
    match m {
        Metric::Chars => is_line_terminator(c),
        _ => c == '\n' || c == '\r',
    }
}

/// Whether `c`, followed by `next`, completes a line break.
pub open spec fn is_break(c: char, next: Option<char>, m: Metric) -> bool {
    ends_line(c, m) && !(c == '\r' && next == Some('\n'))
}

/// The coordinate reached from `p` by walking over `c`, which is followed by `next`.
pub open spec fn step(p: (nat, nat), c: char, next: Option<char>, m: Metric) -> (nat, nat) {
    if is_break(c, next, m) {
        ((p.0 + 1) as nat, 0nat)
    } else {
        (p.0, p.1 + width(c, m))
    }
}

/// The coordinate reached from `p` by walking over `t`, where `next` follows the last character.
pub open spec fn advance(p: (nat, nat), t: Seq<char>, next: Option<char>, m: Metric) -> (nat, nat)
    decreases t.len(),
{
    if t.len() == 0 {
        p
    } else {
        step(advance(p, t.drop_last(), Some(t.last()), m), t.last(), next, m)
    }
}

/// The character at index `i` of `t`, if there is one.
pub open spec fn char_after(t: Seq<char>, i: int) -> Option<char> {
    if 0 <= i < t.len() {
        Some(t[i])
    } else {
        None
    }
}

/// The coordinate of offset `o` in `t`.
pub open spec fn coord_at(t: Seq<char>, o: nat, m: Metric) -> (nat, nat) {
    advance((0nat, 0nat), t.take(o as int), char_after(t, o as int), m)
}

/// The most that `k` characters can add to a column under `m`.
pub open spec fn col_bound(m: Metric, k: int) -> int {
    match m {
        Metric::Chars => k,
        _ => 4 * k,
    }
}

/// Lexicographic order on coordinates, line first.
pub open spec fn before(a: (nat, nat), b: (nat, nat)) -> bool {
    a.0 < b.0 || (a.0 == b.0 && a.1 < b.1)
}

/// One character further, the coordinate moves by one step.
pub proof fn lemma_coord_step(t: Seq<char>, o: nat, m: Metric)
    requires
        o < t.len(),
    ensures
        coord_at(t, (o + 1) as nat, m) == step(coord_at(t, o, m), t[o as int], char_after(t, o + 1 as int), m),
{
    assert(t.take(o + 1 as int).drop_last() =~= t.take(o as int));
}

/// Coordinates strictly increase with the offset.
pub proof fn lemma_coord_increasing(t: Seq<char>, a: nat, b: nat, m: Metric)
    requires
        a < b <= t.len(),
    ensures
        before(coord_at(t, a, m), coord_at(t, b, m)),
    decreases b - a,
{
    lemma_coord_step(t, (b - 1) as nat, m);
    if a + 1 < b {
        lemma_coord_increasing(t, a, (b - 1) as nat, m);
    }
}

/// Walking over a concatenation is walking over each part in turn.
pub proof fn lemma_advance_concat(p: (nat, nat), a: Seq<char>, b: Seq<char>, next: Option<char>, m: Metric)
    ensures
        advance(p, a + b, next, m) == advance(
            advance(p, a, if b.len() > 0 { Some(b[0]) } else { next }, m),
            b,
            next,
            m,
        ),
    decreases b.len(),
{
    if b.len() == 0 {
        assert(a + b =~= a);
    } else {
        assert((a + b).drop_last() =~= a + b.drop_last());
        lemma_advance_concat(p, a, b.drop_last(), Some(b.last()), m);
    }
}

/// Width of `c` in the unit of `m`.
pub fn char_width(c: char, m: Metric) -> (r: usize)
    ensures
        r == width(c, m),
        1 <= r <= 4,
        m == Metric::Chars ==> r == 1,
{
    let v = c as u32;
    match m {
        Metric::Chars => 1,
        Metric::Utf8 => if v < 0x80 {
            1
        } else if v < 0x800 {
            2
        } else if v < 0x10000 {
            3
        } else {
            4
        },
        Metric::Utf16 => if v < 0x10000 {
            1
        } else {
            2
        },
    }
}

/// Whether `c` ends a line under `m`.
pub fn char_ends_line(c: char, m: Metric) -> (r: bool)
    ensures
        r == ends_line(c, m),
{
    match m {
        Metric::Chars => c == '\n' || c == '\u{0B}' || c == '\u{0C}' || c == '\r' || c == '\u{85}'
            || c == '\u{2028}' || c == '\u{2029}',
        _ => c == '\n' || c == '\r',
    }
}

/// Whether `c`, followed by `next`, completes a line break under `m`.
pub fn char_is_break(c: char, next: Option<char>, m: Metric) -> (r: bool)
    ensures
        r == is_break(c, next, m),
{
    let followed_by_lf = match next {
        Some(n) => n == '\n',
        None => false,
    };
    char_ends_line(c, m) && !(c == '\r' && followed_by_lf)
}

/// Walks from coordinate `p` over `text[lo..hi]`; `next` is the character that follows the range.
pub fn walk(p: (usize, usize), text: &[char], lo: usize, hi: usize, next: Option<char>, m: Metric) -> (r: (
    usize,
    usize,
))
    requires
        lo <= hi <= text@.len(),
        p.0 + (hi - lo) <= usize::MAX,
        p.1 + col_bound(m, hi - lo) <= usize::MAX,
    ensures
        (r.0 as nat, r.1 as nat) == advance(
            (p.0 as nat, p.1 as nat),
            text@.subrange(lo as int, hi as int),
            next,
            m,
        ),
        r.0 <= p.0 + (hi - lo),
        r.1 <= p.1 + col_bound(m, hi - lo),
{
    let mut line: usize = p.0;
    let mut col: usize = p.1;
    let mut i: usize = lo;
    while i < hi
        invariant
            lo <= i <= hi,
            hi <= text@.len(),
            p.0 + (hi - lo) <= usize::MAX,
            p.1 + col_bound(m, hi - lo) <= usize::MAX,
            line <= p.0 + (i - lo),
            col <= p.1 + col_bound(m, i - lo),
            (line as nat, col as nat) == advance(
                (p.0 as nat, p.1 as nat),
                text@.subrange(lo as int, i as int),
                if i < hi {
                    Some(text@[i as int])
                } else {
                    next
                },
                m,
            ),
        decreases hi - i,
    {
        let c = text[i];
        let nx = if i + 1 < hi {
            Some(text[i + 1])
        } else {
            next
        };
        proof {
            assert(text@.subrange(lo as int, i + 1).drop_last() =~= text@.subrange(
                lo as int,
                i as int,
            ));
        }
        if char_is_break(c, nx, m) {
            line = line + 1;
            col = 0;
        } else {
            col = col + char_width(c, m);
        }
        i = i + 1;
    }
    (line, col)
}

} // verus!
