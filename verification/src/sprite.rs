//! Sprites: immutable character-art assets parsed from raw text by
//! trimming surrounding whitespace down to the tight bounding box of the
//! non-whitespace content.

use vstd::prelude::*;
use crate::geometry::{Point, Rect};

verus! {

/// The Unicode `White_Space` code points, exactly the characters for
/// which `char::is_whitespace` returns true.
pub open spec fn is_wspace(c: char) -> bool {
    let u = c as u32;
    ||| u == 0x09
    ||| u == 0x0A
    ||| u == 0x0B
    ||| u == 0x0C
    ||| u == 0x0D
    ||| u == 0x20
    ||| u == 0x85
    ||| u == 0xA0
    ||| u == 0x1680
    ||| (0x2000 <= u && u <= 0x200A)
    ||| u == 0x2028
    ||| u == 0x2029
    ||| u == 0x202F
    ||| u == 0x205F
    ||| u == 0x3000
}

/// Whether `c` is a whitespace character.
pub fn is_whitespace_char(c: char) -> (r: bool)
    ensures
        r == is_wspace(c),
{
    let u = c as u32;
    (0x09 <= u && u <= 0x0D) || u == 0x20 || u == 0x85 || u == 0xA0 || u == 0x1680 || (0x2000 <= u
        && u <= 0x200A) || u == 0x2028 || u == 0x2029 || u == 0x202F || u == 0x205F || u == 0x3000
}

/// Index of the first line feed in `s`, or `s.len()` if there is none.
pub open spec fn first_nl(s: Seq<char>) -> int
    decreases s.len(),
{
    if s.len() == 0 {
        0
    } else if s[0] == '\n' {
        0
    } else {
        1 + first_nl(s.drop_first())
    }
}

/// `first_nl` points at the first line feed: nothing before it is one,
/// and it is one itself unless it is the end of the sequence.
pub proof fn lemma_first_nl(s: Seq<char>)
    ensures
        0 <= first_nl(s) <= s.len(),
        forall|t: int| 0 <= t < first_nl(s) ==> s[t] != '\n',
        first_nl(s) < s.len() ==> s[first_nl(s)] == '\n',
    decreases s.len(),
{
    if s.len() == 0 {
    } else if s[0] == '\n' {
    } else {
        lemma_first_nl(s.drop_first());
        assert forall|t: int| 0 <= t < first_nl(s) implies s[t] != '\n' by {
            if t > 0 {
                assert(s.drop_first()[t - 1] == s[t]);
            }
        }
    }
}

/// Any position that looks like a first line feed is the first one.
pub proof fn lemma_first_nl_eq(s: Seq<char>, k: int)
    requires
        0 <= k <= s.len(),
        forall|t: int| 0 <= t < k ==> s[t] != '\n',
        k < s.len() ==> s[k] == '\n',
    ensures
        first_nl(s) == k,
    decreases s.len(),
{
    if s.len() == 0 {
    } else if s[0] == '\n' {
        assert(k == 0);
    } else {
        assert(k >= 1);
        assert forall|t: int| 0 <= t < k - 1 implies s.drop_first()[t] != '\n' by {
            assert(s.drop_first()[t] == s[t + 1]);
        }
        assert(k - 1 < s.drop_first().len() ==> s.drop_first()[k - 1] == s[k]);
        lemma_first_nl_eq(s.drop_first(), k - 1);
    }
}

/// The segment with a trailing carriage return removed. Applied only to
/// segments that a line feed terminates: `str::lines` strips a carriage
/// return before a line feed, but keeps a bare one at the end of an
/// unterminated final line.
pub open spec fn strip_cr(line: Seq<char>) -> Seq<char> {
    if line.len() > 0 && line[line.len() - 1] == '\r' {
        line.drop_last()
    } else {
        line
    }
}

/// The lines of a source text: the segments between line feeds. A
/// newline-terminated segment loses a trailing carriage return; the final
/// segment, which no line feed terminates, keeps one, as `str::lines`
/// keeps it.
pub open spec fn lines_of(s: Seq<char>) -> Seq<Seq<char>>
    decreases s.len(),
{
    let k = first_nl(s);
    if 0 <= k < s.len() {
        seq![strip_cr(s.take(k))] + lines_of(s.skip(k + 1))
    } else {
        seq![s]
    }
}

/// Whether no character of `line` is a line feed.
pub open spec fn no_nl(line: Seq<char>) -> bool {
    forall|t: int| 0 <= t < line.len() ==> line[t] != '\n'
}

/// Splitting at a position that looks like the first line feed unfolds
/// `lines_of` one step.
pub proof fn lemma_lines_of_step(s: Seq<char>, k: int)
    requires
        0 <= k < s.len(),
        s[k] == '\n',
        forall|t: int| 0 <= t < k ==> s[t] != '\n',
    ensures
        lines_of(s) == seq![strip_cr(s.take(k))] + lines_of(s.skip(k + 1)),
{
    lemma_first_nl_eq(s, k);
}

/// A text without line feeds is one line, kept whole.
pub proof fn lemma_lines_of_whole(s: Seq<char>)
    requires
        no_nl(s),
    ensures
        lines_of(s) == seq![s],
{
    lemma_first_nl_eq(s, s.len() as int);
}

/// There are at most `s.len() + 1` lines, none longer than `s` and none
/// containing a line feed.
pub proof fn lemma_lines_of_len(s: Seq<char>)
    ensures
        1 <= lines_of(s).len() <= s.len() + 1,
        forall|k: int| 0 <= k < lines_of(s).len() ==> (#[trigger] lines_of(s)[k]).len() <= s.len(),
        forall|k: int| 0 <= k < lines_of(s).len() ==> no_nl(#[trigger] lines_of(s)[k]),
    decreases s.len(),
{
    lemma_first_nl(s);
    let k = first_nl(s);
    if 0 <= k < s.len() {
        lemma_lines_of_len(s.skip(k + 1));
        assert(strip_cr(s.take(k)).len() <= k);
        assert(no_nl(strip_cr(s.take(k)))) by {
            assert forall|t: int| 0 <= t < strip_cr(s.take(k)).len() implies strip_cr(s.take(k))[t]
                != '\n' by {
                assert(strip_cr(s.take(k))[t] == s[t]);
            }
        }
        assert forall|m: int| 0 <= m < lines_of(s).len() implies (#[trigger] lines_of(s)[m]).len()
            <= s.len() && no_nl(lines_of(s)[m]) by {
            if m > 0 {
                assert(lines_of(s)[m] == lines_of(s.skip(k + 1))[m - 1]);
            }
        }
    } else {
        assert(no_nl(s));
    }
}

/// The views of a sequence of character vectors.
pub open spec fn views(lines: Seq<Vec<char>>) -> Seq<Seq<char>> {
    lines.map_values(|l: Vec<char>| l@)
}

/// Splits a source text into its lines.
fn split_source_lines(base: &str) -> (lines: Vec<Vec<char>>)
    ensures
        views(lines@) == lines_of(base@),
{
    let n = base.unicode_len();
    let mut lines: Vec<Vec<char>> = Vec::new();
    let mut cur: Vec<char> = Vec::new();
    let ghost mut start: int = 0;
    let mut k: usize = 0;
    proof {
        assert(base@.subrange(0, n as int) =~= base@);
        assert(views(lines@) =~= Seq::<Seq<char>>::empty());
        assert(lines_of(base@) =~= views(lines@) + lines_of(base@.subrange(0, n as int)));
    }
    while k < n
        invariant
            n == base@.len(),
            0 <= start <= k <= n,
            cur@ == base@.subrange(start, k as int),
            forall|t: int| start <= t < k ==> base@[t] != '\n',
            lines_of(base@) == views(lines@) + lines_of(base@.subrange(start, n as int)),
        decreases n - k,
    {
        let c = base.get_char(k);
        if c == '\n' {
            let mut done = cur;
            cur = Vec::new();
            if done.len() > 0 && done[done.len() - 1] == '\r' {
                let _last = done.pop();
            }
            proof {
                let rest = base@.subrange(start, n as int);
                let kk = k - start;
                assert forall|t: int| 0 <= t < kk implies rest[t] != '\n' by {
                    assert(rest[t] == base@[start + t]);
                }
                assert(rest[kk] == '\n');
                lemma_lines_of_step(rest, kk);
                assert(rest.take(kk) =~= base@.subrange(start, k as int));
                assert(rest.skip(kk + 1) =~= base@.subrange(k + 1, n as int));
                assert(done@ =~= strip_cr(base@.subrange(start, k as int)));
            }
            let ghost prev = lines@;
            lines.push(done);
            proof {
                assert(views(lines@) =~= views(prev) + seq![done@]);
                assert(lines_of(base@) =~= views(lines@) + lines_of(
                    base@.subrange(k + 1, n as int),
                ));
                start = k + 1;
            }
        } else {
            cur.push(c);
            proof {
                assert(cur@ =~= base@.subrange(start, k + 1));
            }
        }
        k = k + 1;
    }
    // the final segment is unterminated: a bare trailing carriage return
    // stays, as `str::lines` keeps it
    let done = cur;
    proof {
        let rest = base@.subrange(start, n as int);
        assert forall|t: int| 0 <= t < rest.len() implies rest[t] != '\n' by {
            assert(rest[t] == base@[start + t]);
        }
        lemma_lines_of_whole(rest);
        assert(done@ =~= rest);
    }
    let ghost prev = lines@;
    lines.push(done);
    proof {
        assert(views(lines@) =~= views(prev) + seq![done@]);
        assert(lines_of(base@) =~= views(lines@));
    }
    lines
}

/// A text consists of whitespace alone exactly when its lines hold no
/// non-whitespace character: parsing yields the degenerate empty sprite
/// for precisely the whitespace-only inputs.
pub proof fn lemma_blank_iff_all_whitespace(s: Seq<char>)
    ensures
        all_blank(lines_of(s)) <==> (forall|t: int| 0 <= t < s.len() ==> is_wspace(#[trigger] s[t])),
    decreases s.len(),
{
    lemma_first_nl(s);
    let k = first_nl(s);
    if 0 <= k < s.len() {
        let head = strip_cr(s.take(k));
        let rest = s.skip(k + 1);
        lemma_blank_iff_all_whitespace(rest);
        assert(lines_of(s) == seq![head] + lines_of(rest));
        assert((forall|t: int| 0 <= t < s.len() ==> is_wspace(#[trigger] s[t])) ==> all_blank(
            lines_of(s),
        )) by {
            if forall|t: int| 0 <= t < s.len() ==> is_wspace(#[trigger] s[t]) {
                assert forall|t: int| 0 <= t < rest.len() implies is_wspace(#[trigger] rest[t]) by {
                    assert(rest[t] == s[k + 1 + t]);
                }
                assert forall|a: int, b: int| !has_ink_at(lines_of(s), a, b) by {
                    if has_ink_at(lines_of(s), a, b) {
                        if a == 0 {
                            assert(lines_of(s)[0] == head);
                            assert(head[b] == s[b]);
                        } else {
                            assert(lines_of(s)[a] == lines_of(rest)[a - 1]);
                            assert(has_ink_at(lines_of(rest), a - 1, b));
                        }
                    }
                }
            }
        }
        assert(all_blank(lines_of(s)) ==> (forall|t: int|
            0 <= t < s.len() ==> is_wspace(#[trigger] s[t]))) by {
            if all_blank(lines_of(s)) {
                assert forall|a: int, b: int| !has_ink_at(lines_of(rest), a, b) by {
                    if has_ink_at(lines_of(rest), a, b) {
                        assert(lines_of(s)[a + 1] == lines_of(rest)[a]);
                        assert(has_ink_at(lines_of(s), a + 1, b));
                    }
                }
                assert forall|t: int| 0 <= t < s.len() implies is_wspace(#[trigger] s[t]) by {
                    if t < k {
                        if t < head.len() {
                            assert(head[t] == s[t]);
                            assert(!has_ink_at(lines_of(s), 0, t));
                        } else {
                            // the stripped trailing carriage return
                            assert(s.take(k)[t] == s[t]);
                            assert(s[t] == '\r');
                        }
                    } else if t == k {
                        assert(s[t] == '\n');
                    } else {
                        assert(rest[t - k - 1] == s[t]);
                    }
                }
            }
        }
    } else {
        let head = s;
        assert(lines_of(s) == seq![head]);
        assert((forall|t: int| 0 <= t < s.len() ==> is_wspace(#[trigger] s[t])) ==> all_blank(
            lines_of(s),
        )) by {
            if forall|t: int| 0 <= t < s.len() ==> is_wspace(#[trigger] s[t]) {
                assert forall|a: int, b: int| !has_ink_at(lines_of(s), a, b) by {
                    if has_ink_at(lines_of(s), a, b) {
                        assert(lines_of(s)[a] == head);
                        assert(head[b] == s[b]);
                    }
                }
            }
        }
        assert(all_blank(lines_of(s)) ==> (forall|t: int|
            0 <= t < s.len() ==> is_wspace(#[trigger] s[t]))) by {
            if all_blank(lines_of(s)) {
                assert forall|t: int| 0 <= t < s.len() implies is_wspace(#[trigger] s[t]) by {
                    assert(!has_ink_at(lines_of(s), 0, t));
                }
            }
        }
    }
}

/// Whether `line` does not end with a carriage return.
pub open spec fn no_trailing_cr(line: Seq<char>) -> bool {
    line.len() == 0 || line[line.len() - 1] != '\r'
}

/// The given lines joined by line feeds, with no trailing separator.
pub open spec fn join_nl(rows: Seq<Seq<char>>) -> Seq<char>
    decreases rows.len(),
{
    if rows.len() <= 1 {
        if rows.len() == 1 {
            rows[0]
        } else {
            Seq::empty()
        }
    } else {
        rows[0] + seq!['\n'] + join_nl(rows.drop_first())
    }
}

/// Splitting undoes joining: lines free of line feeds, none but the last
/// ending in a carriage return, come back unchanged from `lines_of` of
/// their joined text. The last line needs no proviso: no line feed
/// follows it, so nothing is stripped from it.
pub proof fn lemma_lines_of_join(rows: Seq<Seq<char>>)
    requires
        rows.len() >= 1,
        forall|k: int| 0 <= k < rows.len() ==> no_nl(#[trigger] rows[k]),
        forall|k: int| 0 <= k < rows.len() - 1 ==> no_trailing_cr(#[trigger] rows[k]),
    ensures
        lines_of(join_nl(rows)) == rows,
    decreases rows.len(),
{
    let j = join_nl(rows);
    if rows.len() == 1 {
        assert(no_nl(rows[0]));
        lemma_lines_of_whole(j);
        assert(lines_of(j) =~= rows);
    } else {
        let head = rows[0];
        let rest = rows.drop_first();
        let n0 = head.len() as int;
        assert forall|t: int| 0 <= t < n0 implies j[t] != '\n' by {
            assert(j[t] == head[t]);
        }
        assert(j[n0] == '\n');
        lemma_lines_of_step(j, n0);
        assert(j.take(n0) =~= head);
        assert(strip_cr(head) == head);
        assert(j.skip(n0 + 1) =~= join_nl(rest));
        assert forall|k: int| 0 <= k < rest.len() implies no_nl(#[trigger] rest[k]) by {
            assert(rest[k] == rows[k + 1]);
        }
        assert forall|k: int| 0 <= k < rest.len() - 1 implies no_trailing_cr(
            #[trigger] rest[k],
        ) by {
            assert(rest[k] == rows[k + 1]);
        }
        lemma_lines_of_join(rest);
        assert(lines_of(j) =~= rows);
    }
}

/// Whether line `i` carries a non-whitespace character at column `j`.
pub open spec fn has_ink_at(lines: Seq<Seq<char>>, i: int, j: int) -> bool {
    0 <= i < lines.len() && 0 <= j < lines[i].len() && !is_wspace(lines[i][j])
}

/// Whether the lines hold no non-whitespace character at all.
pub open spec fn all_blank(lines: Seq<Seq<char>>) -> bool {
    forall|i: int, j: int| !has_ink_at(lines, i, j)
}

/// Whether `[r0, r1] x [c0, c1]` is the tight bounding box of the
/// non-whitespace content: every such character lies inside it, and each
/// of its four edges carries one.
pub open spec fn is_ink_bbox(lines: Seq<Seq<char>>, r0: int, r1: int, c0: int, c1: int) -> bool {
    &&& forall|i: int, j: int|
        has_ink_at(lines, i, j) ==> r0 <= i <= r1 && c0 <= j <= c1
    &&& exists|j: int| has_ink_at(lines, r0, j)
    &&& exists|j: int| has_ink_at(lines, r1, j)
    &&& exists|i: int| has_ink_at(lines, i, c0)
    &&& exists|i: int| has_ink_at(lines, i, c1)
}

/// The bounding box of the non-whitespace content, as
/// `(top row, bottom row, left column, right column)`.
pub open spec fn ink_bbox(lines: Seq<Seq<char>>) -> (int, int, int, int) {
    choose|b: (int, int, int, int)| is_ink_bbox(lines, b.0, b.1, b.2, b.3)
}

/// The tight bounding box is unique.
pub proof fn lemma_ink_bbox_unique(
    lines: Seq<Seq<char>>,
    a0: int,
    a1: int,
    a2: int,
    a3: int,
    b0: int,
    b1: int,
    b2: int,
    b3: int,
)
    requires
        is_ink_bbox(lines, a0, a1, a2, a3),
        is_ink_bbox(lines, b0, b1, b2, b3),
    ensures
        a0 == b0 && a1 == b1 && a2 == b2 && a3 == b3,
{
    let ja0 = choose|j: int| has_ink_at(lines, a0, j);
    let ja1 = choose|j: int| has_ink_at(lines, a1, j);
    let ia2 = choose|i: int| has_ink_at(lines, i, a2);
    let ia3 = choose|i: int| has_ink_at(lines, i, a3);
    let jb0 = choose|j: int| has_ink_at(lines, b0, j);
    let jb1 = choose|j: int| has_ink_at(lines, b1, j);
    let ib2 = choose|i: int| has_ink_at(lines, i, b2);
    let ib3 = choose|i: int| has_ink_at(lines, i, b3);
    assert(has_ink_at(lines, a0, ja0) && has_ink_at(lines, a1, ja1));
    assert(has_ink_at(lines, ia2, a2) && has_ink_at(lines, ia3, a3));
    assert(has_ink_at(lines, b0, jb0) && has_ink_at(lines, b1, jb1));
    assert(has_ink_at(lines, ib2, b2) && has_ink_at(lines, ib3, b3));
}

/// The character of line `i` at column `j`, or a space where the lines or
/// the line end before that cell.
pub open spec fn cell_or_space(lines: Seq<Seq<char>>, i: int, j: int) -> char {
    if 0 <= i < lines.len() && 0 <= j < lines[i].len() {
        lines[i][j]
    } else {
        ' '
    }
}

/// An immutable rectangular block of characters, built by trimming the
/// whitespace margins from a raw text asset.
#[derive(Debug, Clone, PartialEq)]
pub struct Sprite {
    pub shape: Rect,
    pub texture: Vec<char>,
}

impl Sprite {
    /// The texture holds exactly one character per cell of the shape.
    pub open spec fn wf(self) -> bool {
        self.texture@.len() == self.shape.area()
    }

    /// The character at cell `(i, j)`, a space outside the shape.
    pub open spec fn spec_at(self, i: int, j: int) -> char {
        if self.shape.contains(i, j) {
            self.texture@[self.shape.flat_index(i, j)]
        } else {
            ' '
        }
    }

    /// How a sprite relates to the lines it was parsed from: all-blank
    /// lines give the degenerate empty sprite; otherwise the shape is the
    /// tight bounding box of the non-whitespace content and each cell
    /// holds the character under the box, right-padded with spaces where
    /// a ragged line ends inside the box.
    pub open spec fn parses_from_lines(self, lines: Seq<Seq<char>>) -> bool {
        if all_blank(lines) {
            self.shape.h == 0 && self.shape.w == 0 && self.texture@ == Seq::<char>::empty()
        } else {
            let b = ink_bbox(lines);
            &&& is_ink_bbox(lines, b.0, b.1, b.2, b.3)
            &&& self.shape.h as int == b.1 - b.0 + 1
            &&& self.shape.w as int == b.3 - b.2 + 1
            &&& self.texture@.len() == self.shape.area()
            &&& forall|i: int, j: int|
                0 <= i < self.shape.h && 0 <= j < self.shape.w ==> #[trigger] self.spec_at(i, j)
                    == cell_or_space(lines, b.0 + i, b.2 + j)
        }
    }

    /// How a sprite relates to the raw text it was parsed from.
    pub open spec fn parses_from(self, text: Seq<char>) -> bool {
        self.parses_from_lines(lines_of(text))
    }

    /// Parses a sprite from a raw text asset. Whitespace-only text gives
    /// the degenerate empty sprite; any other text is trimmed to the
    /// tight bounding box of its non-whitespace characters.
    pub fn new(base: &str) -> (s: Sprite)
        requires
            base@.len() < u32::MAX,
        ensures
            s.wf(),
            s.parses_from(base@),
    {
        let lines = split_source_lines(base);
        proof {
            lemma_lines_of_len(base@);
        }
        Self::from_lines(&lines)
    }

    /// Parses a sprite from the lines of a text asset.
    #[verifier::loop_isolation(false)]
    fn from_lines(lines: &Vec<Vec<char>>) -> (s: Sprite)
        requires
            views(lines@).len() <= u32::MAX,
            forall|k: int|
                0 <= k < views(lines@).len() ==> (#[trigger] views(lines@)[k]).len() <= u32::MAX,
        ensures
            s.wf(),
            s.parses_from_lines(views(lines@)),
    {
        let ghost ld = views(lines@);
        let nl = lines.len();
        let mut found = false;
        let mut min_i: usize = 0;
        let mut max_i: usize = 0;
        let mut min_j: usize = 0;
        let mut max_j: usize = 0;
        let mut i: usize = 0;
        while i < nl
            invariant
                i <= nl,
                found ==> min_i <= max_i < i && min_j <= max_j,
                !found ==> forall|a: int, b: int| a < i ==> !has_ink_at(ld, a, b),
                found ==> forall|a: int, b: int|
                    has_ink_at(ld, a, b) && a < i ==> min_i <= a <= max_i && min_j <= b <= max_j,
                found ==> exists|b: int| has_ink_at(ld, min_i as int, b),
                found ==> exists|b: int| has_ink_at(ld, max_i as int, b),
                found ==> exists|a: int| has_ink_at(ld, a, min_j as int),
                found ==> exists|a: int| has_ink_at(ld, a, max_j as int),
            decreases nl - i,
        {
            let line = &lines[i];
            let m = line.len();
            assert(line@ == ld[i as int]);
            let mut j: usize = 0;
            while j < m
                invariant
                    j <= m,
                    found ==> min_i <= max_i <= i && min_j <= max_j,
                    !found ==> forall|a: int, b: int|
                        a < i || (a == i && b < j) ==> !has_ink_at(ld, a, b),
                    found ==> forall|a: int, b: int|
                        has_ink_at(ld, a, b) && (a < i || (a == i && b < j)) ==> min_i <= a <= max_i
                            && min_j <= b <= max_j,
                    found ==> exists|b: int| has_ink_at(ld, min_i as int, b),
                    found ==> exists|b: int| has_ink_at(ld, max_i as int, b),
                    found ==> exists|a: int| has_ink_at(ld, a, min_j as int),
                    found ==> exists|a: int| has_ink_at(ld, a, max_j as int),
                decreases m - j,
            {
                let c = line[j];
                if !is_whitespace_char(c) {
                    assert(has_ink_at(ld, i as int, j as int));
                    if !found {
                        found = true;
                        min_i = i;
                        max_i = i;
                        min_j = j;
                        max_j = j;
                    } else {
                        if j < min_j {
                            min_j = j;
                        }
                        if j > max_j {
                            max_j = j;
                        }
                        max_i = i;
                    }
                }
                j = j + 1;
            }
            i = i + 1;
        }
        if !found {
            let s = Sprite { shape: Rect { h: 0, w: 0 }, texture: Vec::new() };
            proof {
                assert(all_blank(ld));
                assert(s.texture@ =~= Seq::<char>::empty());
            }
            return s;
        }
        let hh: usize = max_i - min_i + 1;
        let ww: usize = max_j - min_j + 1;
        proof {
            let ghost tup = (min_i as int, max_i as int, min_j as int, max_j as int);
            assert(is_ink_bbox(ld, tup.0, tup.1, tup.2, tup.3));
            assert(!all_blank(ld)) by {
                let b0 = choose|b: int| has_ink_at(ld, min_i as int, b);
                assert(has_ink_at(ld, min_i as int, b0));
            }
            lemma_ink_bbox_unique(
                ld,
                ink_bbox(ld).0,
                ink_bbox(ld).1,
                ink_bbox(ld).2,
                ink_bbox(ld).3,
                tup.0,
                tup.1,
                tup.2,
                tup.3,
            );
            // the extents fit in u32: the box lies within the lines
            assert(hh <= ld.len());
            assert(ww <= u32::MAX) by {
                let a = choose|a: int| has_ink_at(ld, a, max_j as int);
                assert(has_ink_at(ld, a, max_j as int));
                assert(ld[a].len() <= u32::MAX);
            }
        }
        let mut texture: Vec<char> = Vec::new();
        let mut i2: usize = 0;
        while i2 < hh
            invariant
                i2 <= hh,
                texture@.len() == i2 * ww,
                forall|t: int|
                    0 <= t < texture@.len() ==> #[trigger] texture@[t] == cell_or_space(
                        ld,
                        min_i + t / (ww as int),
                        min_j + t % (ww as int),
                    ),
            decreases hh - i2,
        {
            let line = &lines[min_i + i2];
            assert(line@ == ld[min_i + i2]);
            let mut j2: usize = 0;
            while j2 < ww
                invariant
                    j2 <= ww,
                    texture@.len() == i2 * ww + j2,
                    forall|t: int|
                        0 <= t < texture@.len() ==> #[trigger] texture@[t] == cell_or_space(
                            ld,
                            min_i + t / (ww as int),
                            min_j + t % (ww as int),
                        ),
                decreases ww - j2,
            {
                proof {
                    assert(min_j + j2 <= max_j);
                    assert(min_i + i2 <= max_i);
                }
                let c = if min_j + j2 < line.len() {
                    line[min_j + j2]
                } else {
                    ' '
                };
                proof {
                    vstd::arithmetic::div_mod::lemma_fundamental_div_mod_converse(
                        (i2 * ww + j2) as int,
                        ww as int,
                        i2 as int,
                        j2 as int,
                    );
                    assert(c == cell_or_space(ld, min_i + i2, min_j + j2));
                }
                texture.push(c);
                j2 = j2 + 1;
            }
            proof {
                assert((i2 + 1) * ww == i2 * ww + ww) by (nonlinear_arith);
            }
            i2 = i2 + 1;
        }
        let s = Sprite { shape: Rect { h: hh as u32, w: ww as u32 }, texture };
        proof {
            assert(s.texture@.len() == s.shape.area()) by {
                assert(hh * ww == (hh as u32) as int * (ww as u32) as int);
            }
            let b = ink_bbox(ld);
            assert forall|ii: int, jj: int|
                0 <= ii < s.shape.h && 0 <= jj < s.shape.w implies #[trigger] s.spec_at(ii, jj)
                == cell_or_space(ld, b.0 + ii, b.2 + jj) by {
                let t = s.shape.flat_index(ii, jj);
                crate::geometry::lemma_flat_index_bounds(
                    s.shape.h as int,
                    s.shape.w as int,
                    ii,
                    jj,
                );
                vstd::arithmetic::div_mod::lemma_fundamental_div_mod_converse(
                    t,
                    ww as int,
                    ii,
                    jj,
                );
            }
        }
        s
    }

    /// Row `i` of the texture, as its own sequence of `w` characters.
    pub open spec fn row(self, i: int) -> Seq<char> {
        self.texture@.subrange(
            self.shape.w as int * i,
            self.shape.w as int * i + self.shape.w as int,
        )
    }

    /// All texture rows, top to bottom.
    pub open spec fn rows(self) -> Seq<Seq<char>> {
        Seq::new(self.shape.h as nat, |i: int| self.row(i))
    }

    /// The sprite's serialized form with the border stripped: its texture
    /// rows joined by line feeds.
    pub open spec fn rows_text(self) -> Seq<char> {
        join_nl(self.rows())
    }

    /// The character at `point`, absent where `point` lies outside the
    /// sprite's own shape.
    pub fn get(&self, point: Point) -> (r: Option<char>)
        requires
            self.wf(),
        ensures
            r == if self.shape.contains(point.0 as int, point.1 as int) {
                Some(self.spec_at(point.0 as int, point.1 as int))
            } else {
                None::<char>
            },
    {
        let Point(i, j) = point;
        if i < self.shape.h && j < self.shape.w {
            // reading the length brings the vector's length bound into scope
            let _len = self.texture.len();
            let idx = self.shape.local_index(i, j);
            Some(self.texture[idx])
        } else {
            None
        }
    }

    /// The character at `point`, a space where `point` lies outside the
    /// sprite's own shape.
    pub fn get_ext(&self, point: Point) -> (r: char)
        requires
            self.wf(),
        ensures
            r == self.spec_at(point.0 as int, point.1 as int),
    {
        match self.get(point) {
            Some(c) => c,
            None => ' ',
        }
    }
}

/// Each serialized row of a well-formed sprite has the sprite's width and
/// carries the sprite's own characters.
proof fn lemma_sprite_row(s: Sprite, k: int)
    requires
        s.wf(),
        0 <= k < s.shape.h,
    ensures
        s.rows()[k].len() == s.shape.w,
        forall|t: int| 0 <= t < s.shape.w ==> s.rows()[k][t] == #[trigger] s.spec_at(k, t),
{
    let w = s.shape.w as int;
    let h = s.shape.h as int;
    assert(0 <= w * k && w * k + w <= w * h && w * h == h * w) by (nonlinear_arith)
        requires
            0 <= k < h,
            0 <= w,
    ;
    assert forall|t: int| 0 <= t < s.shape.w implies s.rows()[k][t] == #[trigger] s.spec_at(
        k,
        t,
    ) by {
        assert(s.rows()[k][t] == s.texture@[w * k + t]);
        assert(s.shape.flat_index(k, t) == w * k + t);
    }
}

/// Parsing is deterministic: two well-formed sprites that parse from the
/// same text have the same shape and an identical texture.
pub proof fn lemma_parse_deterministic(a: Sprite, b: Sprite, text: Seq<char>)
    requires
        a.wf(),
        b.wf(),
        a.parses_from(text),
        b.parses_from(text),
    ensures
        a.shape == b.shape,
        a.texture@ == b.texture@,
{
    let lines = lines_of(text);
    if all_blank(lines) {
        assert(a.texture@ =~= b.texture@);
    } else {
        let h = a.shape.h as int;
        let w = a.shape.w as int;
        assert(a.texture@.len() == b.texture@.len()) by {
            assert(a.shape.area() == b.shape.area());
        }
        let bb = ink_bbox(lines);
        let j0 = choose|j: int| has_ink_at(lines, bb.0, j);
        assert(has_ink_at(lines, bb.0, j0));
        assert(h >= 1 && w >= 1);
        assert forall|t: int| 0 <= t < a.texture@.len() implies a.texture@[t] == b.texture@[t] by {
            vstd::arithmetic::div_mod::lemma_fundamental_div_mod(t, w);
            vstd::arithmetic::div_mod::lemma_mod_bound(t, w);
            let i = t / w;
            let j = t % w;
            assert(0 <= i && i < h) by (nonlinear_arith)
                requires
                    w > 0,
                    0 <= t < h * w,
                    t == w * i + j,
                    0 <= j < w,
            ;
            assert(a.spec_at(i, j) == cell_or_space(lines, ink_bbox(lines).0 + i, ink_bbox(
                lines,
            ).2 + j));
            assert(b.spec_at(i, j) == cell_or_space(lines, ink_bbox(lines).0 + i, ink_bbox(
                lines,
            ).2 + j));
            assert(a.shape.flat_index(i, j) == t && b.shape.flat_index(i, j) == t);
        }
        assert(a.texture@ =~= b.texture@);
    }
}

/// Trimming is idempotent: a non-degenerate sprite parses unchanged from
/// its own serialized rows, the bordered preview with the border
/// stripped. The one proviso: no texture row but the last may end in a
/// carriage return, which splitting the serialized form would strip away;
/// the last row is safe, since no line feed follows it.
pub proof fn lemma_reparse_identity(s: Sprite, base: Seq<char>)
    requires
        s.wf(),
        s.parses_from(base),
        !all_blank(lines_of(base)),
        forall|i: int|
            0 <= i < s.shape.h as int - 1 ==> #[trigger] s.spec_at(i, s.shape.w as int - 1) != '\r',
    ensures
        s.parses_from(s.rows_text()),
{
    let lines = lines_of(base);
    let b = ink_bbox(lines);
    let h = s.shape.h as int;
    let w = s.shape.w as int;
    let rows = s.rows();
    lemma_lines_of_len(base);

    // the box is nonempty, so the sprite has at least one row and column
    let j0 = choose|j: int| has_ink_at(lines, b.0, j);
    assert(has_ink_at(lines, b.0, j0));
    assert(h >= 1 && w >= 1);

    // every sprite cell is a box cell of the source lines or a padding
    // space, so no row holds a line feed; trailing carriage returns are
    // ruled out by the proviso
    assert forall|k: int| 0 <= k < rows.len() implies no_nl(#[trigger] rows[k]) by {
        lemma_sprite_row(s, k);
        assert forall|t: int| 0 <= t < rows[k].len() implies rows[k][t] != '\n' by {
            assert(rows[k][t] == s.spec_at(k, t));
            assert(s.spec_at(k, t) == cell_or_space(lines, b.0 + k, b.2 + t));
        }
    }
    assert forall|k: int| 0 <= k < rows.len() - 1 implies no_trailing_cr(#[trigger] rows[k]) by {
        lemma_sprite_row(s, k);
        assert(rows[k][w - 1] == s.spec_at(k, w - 1));
    }
    lemma_lines_of_join(rows);
    assert(lines_of(s.rows_text()) == rows);

    // the reparsed content is not blank: the box's top edge carries ink,
    // which lands in row 0 of the serialized sprite
    assert(b.2 <= j0 <= b.3);
    lemma_sprite_row(s, 0);
    assert(s.spec_at(0, j0 - b.2) == cell_or_space(lines, b.0, j0));
    assert(has_ink_at(rows, 0, j0 - b.2));
    assert(!all_blank(rows));

    let hm = h - 1;
    let wm = w - 1;
    // the whole extent of the serialized sprite is its own tight box
    assert forall|i: int, j: int| has_ink_at(rows, i, j) implies 0 <= i <= h - 1 && 0 <= j <= w
        - 1 by {
        lemma_sprite_row(s, i);
    }
    assert(exists|j: int| has_ink_at(rows, 0, j));
    // bottom edge
    let j1 = choose|j: int| has_ink_at(lines, b.1, j);
    assert(has_ink_at(lines, b.1, j1));
    assert(b.2 <= j1 <= b.3);
    lemma_sprite_row(s, h - 1);
    assert(s.spec_at(h - 1, j1 - b.2) == cell_or_space(lines, b.0 + (h - 1), j1));
    assert(has_ink_at(rows, h - 1, j1 - b.2));
    assert(exists|j: int| has_ink_at(rows, hm, j));
    // left edge
    let i2 = choose|i: int| has_ink_at(lines, i, b.2);
    assert(has_ink_at(lines, i2, b.2));
    assert(b.0 <= i2 <= b.1);
    lemma_sprite_row(s, i2 - b.0);
    assert(s.spec_at(i2 - b.0, 0) == cell_or_space(lines, i2, b.2));
    assert(has_ink_at(rows, i2 - b.0, 0));
    assert(exists|i: int| has_ink_at(rows, i, 0));
    // right edge
    let i3 = choose|i: int| has_ink_at(lines, i, b.3);
    assert(has_ink_at(lines, i3, b.3));
    assert(b.0 <= i3 <= b.1);
    lemma_sprite_row(s, i3 - b.0);
    assert(s.spec_at(i3 - b.0, w - 1) == cell_or_space(lines, i3, b.3));
    assert(has_ink_at(rows, i3 - b.0, w - 1));
    assert(exists|i: int| has_ink_at(rows, i, wm));
    assert(is_ink_bbox(rows, 0, h - 1, 0, w - 1));

    // that box is the one the reparse finds
    let ghost tup = (0int, h - 1, 0int, w - 1);
    assert(is_ink_bbox(rows, tup.0, tup.1, tup.2, tup.3));
    let rb = ink_bbox(rows);
    assert(is_ink_bbox(rows, rb.0, rb.1, rb.2, rb.3));
    lemma_ink_bbox_unique(rows, rb.0, rb.1, rb.2, rb.3, 0, h - 1, 0, w - 1);

    // and under it the reparse reads back exactly the sprite's own cells
    assert forall|i: int, j: int| 0 <= i < s.shape.h && 0 <= j < s.shape.w implies #[trigger] s.spec_at(
        i,
        j,
    ) == cell_or_space(rows, rb.0 + i, rb.2 + j) by {
        lemma_sprite_row(s, i);
        assert(rows[i][j] == s.spec_at(i, j));
    }
}

} // verus!
