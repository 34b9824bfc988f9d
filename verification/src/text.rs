//! The text serializer: renders a grid extent and its row-major character
//! buffer as a bordered block of text, both to preview sprite assets and
//! to produce the final frame string handed to the output sink.

use vstd::prelude::*;
use crate::display::DisplayBuffer;
use crate::geometry::Rect;
use crate::sprite::Sprite;

verus! {

/// A horizontal border: `+`, `w` dashes, `+`, and a line break.
pub open spec fn border_row(w: int) -> Seq<char> {
    seq!['+'] + Seq::new(w as nat, |k: int| '-') + seq!['+', '\n']
}

/// Content row `i`: `|`, the row's `w` characters verbatim, `|`, and a
/// line break.
pub open spec fn content_row(cells: Seq<char>, w: int, i: int) -> Seq<char> {
    seq!['|'] + cells.subrange(w * i, w * i + w) + seq!['|', '\n']
}

/// The first `n` content rows, concatenated in order.
pub open spec fn rows_upto(cells: Seq<char>, w: int, n: int) -> Seq<char>
    decreases n,
{
    if n <= 0 {
        Seq::empty()
    } else {
        rows_upto(cells, w, n - 1) + content_row(cells, w, n - 1)
    }
}

/// The bordered textual representation of a grid: a top border, one
/// framed line per row, and a matching bottom border.
pub open spec fn text_of(shape: Rect, cells: Seq<char>) -> Seq<char> {
    border_row(shape.w as int) + rows_upto(cells, shape.w as int, shape.h as int) + border_row(
        shape.w as int,
    )
}

/// A blank content row: `|`, `w` spaces, `|`, and a line break.
pub open spec fn blank_row(w: int) -> Seq<char> {
    seq!['|'] + Seq::new(w as nat, |k: int| ' ') + seq!['|', '\n']
}

/// `n` blank content rows, concatenated.
pub open spec fn blank_rows(w: int, n: int) -> Seq<char>
    decreases n,
{
    if n <= 0 {
        Seq::empty()
    } else {
        blank_rows(w, n - 1) + blank_row(w)
    }
}

proof fn lemma_rows_upto_blank(cells: Seq<char>, w: int, h: int, n: int)
    requires
        cells.len() == h * w,
        0 <= n <= h,
        0 <= w,
        forall|k: int| 0 <= k < cells.len() ==> cells[k] == ' ',
    ensures
        rows_upto(cells, w, n) == blank_rows(w, n),
    decreases n,
{
    if n > 0 {
        lemma_rows_upto_blank(cells, w, h, n - 1);
        assert(0 <= w * (n - 1) && w * (n - 1) + w == w * n && w * n <= w * h && w * h == h * w)
            by (nonlinear_arith)
            requires
                0 < n <= h,
                0 <= w,
        ;
        assert(cells.subrange(w * (n - 1), w * (n - 1) + w) =~= Seq::new(w as nat, |k: int| ' '));
        assert(content_row(cells, w, n - 1) =~= blank_row(w));
        assert(rows_upto(cells, w, n) =~= blank_rows(w, n));
    } else {
        assert(rows_upto(cells, w, n) =~= blank_rows(w, n));
    }
}

/// A buffer of all space characters — what `clear` leaves behind —
/// serializes to a blank frame bordered correctly for its shape: a top
/// border, one blank content row per buffer row, and a bottom border.
pub proof fn lemma_cleared_frame_blank(shape: Rect)
    ensures
        text_of(shape, Seq::new(shape.area() as nat, |k: int| ' ')) == border_row(shape.w as int)
            + blank_rows(shape.w as int, shape.h as int) + border_row(shape.w as int),
{
    let cells = Seq::new(shape.area() as nat, |k: int| ' ');
    lemma_rows_upto_blank(cells, shape.w as int, shape.h as int, shape.h as int);
}

/// Relies on `String`'s `FromIterator<char>` impl: collecting characters
/// yields a string holding exactly those characters in order.
#[verifier::external_body]
fn chars_to_string(cs: &Vec<char>) -> (s: String)
    ensures
        s@ == cs@,
{
    cs.iter().collect()
}

/// Appends a horizontal border line to `out`.
fn push_border(out: &mut Vec<char>, w: u32)
    ensures
        final(out)@ =~= old(out)@ + border_row(w as int),
{
    out.push('+');
    let mut k: u32 = 0;
    while k < w
        invariant
            k <= w,
            out@ =~= old(out)@ + seq!['+'] + Seq::new(k as nat, |t: int| '-'),
        decreases w - k,
    {
        out.push('-');
        proof {
            assert(out@ =~= old(out)@ + seq!['+'] + Seq::new((k + 1) as nat, |t: int| '-'));
        }
        k = k + 1;
    }
    out.push('+');
    out.push('\n');
    proof {
        assert(out@ =~= old(out)@ + border_row(w as int));
    }
}

/// Serializes a grid extent and its row-major character buffer into the
/// bordered textual representation.
#[verifier::loop_isolation(false)]
pub fn grid_text(shape: &Rect, cells: &Vec<char>) -> (out: String)
    requires
        cells@.len() == shape.area(),
    ensures
        out@ == text_of(*shape, cells@),
{
    // reading the length brings the vector's length bound into scope
    let _len = cells.len();
    let w = shape.w;
    let h = shape.h;
    let mut out: Vec<char> = Vec::new();
    push_border(&mut out, w);
    proof {
        assert(out@ =~= border_row(w as int) + rows_upto(cells@, w as int, 0));
    }
    let mut i: u32 = 0;
    while i < h
        invariant
            i <= h,
            out@ =~= border_row(w as int) + rows_upto(cells@, w as int, i as int),
        decreases h - i,
    {
        out.push('|');
        proof {
            assert(0 <= w as int * i as int <= w as int * h as int) by (nonlinear_arith)
                requires
                    0 <= i < h,
                    0 <= w,
            ;
            assert(cells@.subrange(w as int * i as int, w as int * i as int)
                =~= Seq::<char>::empty());
            assert(out@ =~= border_row(w as int) + rows_upto(cells@, w as int, i as int) + seq!['|']
                + cells@.subrange(w as int * i as int, w as int * i as int));
        }
        let mut j: u32 = 0;
        while j < w
            invariant
                j <= w,
                out@ =~= border_row(w as int) + rows_upto(cells@, w as int, i as int) + seq!['|']
                    + cells@.subrange(w as int * i as int, w as int * i as int + j as int),
            decreases w - j,
        {
            proof {
                crate::geometry::lemma_flat_index_bounds(h as int, w as int, i as int, j as int);
            }
            let idx = shape.local_index(i, j);
            out.push(cells[idx]);
            proof {
                assert(cells@.subrange(w as int * i as int, w as int * i as int + j + 1)
                    =~= cells@.subrange(w as int * i as int, w as int * i as int + j) + seq![
                    cells@[w as int * i as int + j],
                ]);
                assert(out@ =~= border_row(w as int) + rows_upto(cells@, w as int, i as int) + seq![
                    '|',
                ] + cells@.subrange(w as int * i as int, w as int * i as int + j + 1));
            }
            j = j + 1;
        }
        out.push('|');
        out.push('\n');
        proof {
            assert(out@ =~= border_row(w as int) + rows_upto(cells@, w as int, i as int)
                + content_row(cells@, w as int, i as int));
            assert(out@ =~= border_row(w as int) + rows_upto(cells@, w as int, i + 1));
        }
        i = i + 1;
    }
    push_border(&mut out, w);
    proof {
        assert(out@ =~= text_of(*shape, cells@));
    }
    chars_to_string(&out)
}

impl Sprite {
    /// The bordered textual preview of this sprite.
    pub fn to_text(&self) -> (out: String)
        requires
            self.wf(),
        ensures
            out@ == text_of(self.shape, self.texture@),
    {
        grid_text(&self.shape, &self.texture)
    }
}

impl DisplayBuffer {
    /// The bordered textual representation of the current frame.
    pub fn get_buffer(&self) -> (out: String)
        requires
            self.wf(),
        ensures
            out@ == text_of(self.shape, self.screen_buffer@),
    {
        grid_text(&self.shape, &self.screen_buffer)
    }
}

} // verus!
