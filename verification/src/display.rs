//! The display buffer: a mutable screen-sized character grid that is
//! cleared and rebuilt every frame by compositing sprites at signed
//! placements, with clipping against the buffer edges.

use vstd::prelude::*;
use crate::geometry::{lemma_flat_index_injective, Coord, Point, Rect};
use crate::sprite::Sprite;

verus! {

/// The configured extent of the display, supplied once at startup.
#[derive(Debug, Clone, Copy, PartialEq, Eq)]
pub struct DisplayConfig {
    pub h: u32,
    pub w: u32,
}

impl Default for DisplayConfig {
    /// The fallback display extent used when no configuration is given.
    fn default() -> (c: Self)
        ensures
            c.h == 50,
            c.w == 100,
    {
        DisplayConfig { h: 50, w: 100 }
    }
}

/// A marker for objects that take part in a frame: the driver composites
/// exactly the sprites it has marked visible, in its own draw order.
#[derive(Debug, Clone, Copy, PartialEq, Eq)]
pub struct Visible;

/// The configuration to run with: the supplied one, or the default
/// extent where none was given.
pub fn resolve_display_config(config: Option<DisplayConfig>) -> (c: DisplayConfig)
    ensures
        c == (match config {
            Some(x) => x,
            None => DisplayConfig { h: 50, w: 100 },
        }),
{
    match config {
        Some(x) => x,
        None => Default::default(),
    }
}

/// The sprite-local row or column where the visible window starts on one
/// axis: how far the sprite's own origin is clipped because it falls
/// before the buffer origin.
pub open spec fn src_start(pos: int) -> int {
    if pos < 0 {
        -pos
    } else {
        0
    }
}

/// The sprite-local row or column where the visible window ends on one
/// axis: how far the sprite extends before it runs past the buffer's far
/// edge.
pub open spec fn src_end(pos: int, sprite_ext: int, buf_ext: int) -> int {
    if sprite_ext <= buf_ext - pos {
        sprite_ext
    } else {
        buf_ext - pos
    }
}

/// Whether the visible window is nonempty on one axis.
pub open spec fn axis_visible(pos: int, sprite_ext: int, buf_ext: int) -> bool {
    src_start(pos) < src_end(pos, sprite_ext, buf_ext)
}

/// Whether a sprite of extent `sprite_shape` placed at `coord` overlaps a
/// buffer of extent `buf_shape` at all. When either axis's window is
/// empty, compositing is a complete no-op.
pub open spec fn overlaps(coord: Coord, sprite_shape: Rect, buf_shape: Rect) -> bool {
    axis_visible(coord.0 as int, sprite_shape.h as int, buf_shape.h as int) && axis_visible(
        coord.1 as int,
        sprite_shape.w as int,
        buf_shape.w as int,
    )
}

/// The character that buffer cell `(r, c)` holds after `sprite` is
/// composited at `coord` over a buffer whose cells were `old_cells`: the
/// sprite pixel where the cell lies under the visible window, the old
/// character everywhere else.
pub open spec fn composited_cell(
    old_cells: Seq<char>,
    buf_shape: Rect,
    coord: Coord,
    sprite: Sprite,
    r: int,
    c: int,
) -> char {
    let sr = r - coord.0 as int;
    let sc = c - coord.1 as int;
    if overlaps(coord, sprite.shape, buf_shape) && 0 <= sr < sprite.shape.h && 0 <= sc
        < sprite.shape.w {
        sprite.spec_at(sr, sc)
    } else {
        old_cells[buf_shape.flat_index(r, c)]
    }
}

/// A placement that leaves the sprite fully off the buffer on either
/// axis — above or below it, or to its left or right — overlaps nothing,
/// so compositing there changes no cell at all.
pub proof fn lemma_offscreen_no_overlap(coord: Coord, sprite_shape: Rect, buf_shape: Rect)
    requires
        coord.0 as int <= -(sprite_shape.h as int) || coord.0 as int >= buf_shape.h as int
            || coord.1 as int <= -(sprite_shape.w as int) || coord.1 as int >= buf_shape.w as int,
    ensures
        !overlaps(coord, sprite_shape, buf_shape),
{
}

/// Compositing a sprite that lies fully within the buffer copies every
/// sprite pixel onto the cell under it and leaves every other cell at its
/// old character.
pub proof fn lemma_composite_within_bounds(
    old_cells: Seq<char>,
    buf_shape: Rect,
    coord: Coord,
    sprite: Sprite,
)
    requires
        0 <= coord.0 as int,
        coord.0 as int + sprite.shape.h as int <= buf_shape.h as int,
        0 <= coord.1 as int,
        coord.1 as int + sprite.shape.w as int <= buf_shape.w as int,
    ensures
        forall|r: int, c: int|
            coord.0 <= r < coord.0 as int + sprite.shape.h as int && coord.1 <= c < coord.1 as int
                + sprite.shape.w as int ==> #[trigger] composited_cell(
                old_cells,
                buf_shape,
                coord,
                sprite,
                r,
                c,
            ) == sprite.spec_at(r - coord.0 as int, c - coord.1 as int),
        forall|r: int, c: int|
            buf_shape.contains(r, c) && !(coord.0 <= r < coord.0 as int + sprite.shape.h as int
                && coord.1 <= c < coord.1 as int + sprite.shape.w as int)
                ==> #[trigger] composited_cell(old_cells, buf_shape, coord, sprite, r, c)
                == old_cells[buf_shape.flat_index(r, c)],
{
}

/// The renderable surface: a character grid of fixed extent, rebuilt in
/// place once per frame.
#[derive(Debug, Clone, PartialEq)]
pub struct DisplayBuffer {
    pub shape: Rect,
    pub screen_buffer: Vec<char>,
}

impl DisplayBuffer {
    /// The buffer holds exactly one character per cell of the shape.
    pub open spec fn wf(self) -> bool {
        self.screen_buffer@.len() == self.shape.area()
    }

    /// The character at cell `(r, c)`.
    pub open spec fn spec_at(self, r: int, c: int) -> char {
        self.screen_buffer@[self.shape.flat_index(r, c)]
    }

    /// A buffer of the configured extent, all cells blank.
    pub fn init_with(config: &DisplayConfig) -> (db: Self)
        requires
            config.h * config.w <= u32::MAX,
        ensures
            db.wf(),
            db.shape == (Rect { h: config.h, w: config.w }),
            db.screen_buffer@ =~= Seq::new((config.h * config.w) as nat, |k: int| ' '),
    {
        Self::init(config.h, config.w)
    }

    /// A buffer of `h` rows by `w` columns, all cells blank.
    pub fn init(h: u32, w: u32) -> (db: Self)
        requires
            h * w <= u32::MAX,
        ensures
            db.wf(),
            db.shape == (Rect { h, w }),
            db.screen_buffer@ =~= Seq::new((h * w) as nat, |k: int| ' '),
    {
        let n: usize = (h as usize) * (w as usize);
        let mut cells: Vec<char> = Vec::new();
        let mut k: usize = 0;
        while k < n
            invariant
                k <= n,
                cells@.len() == k,
                forall|t: int| 0 <= t < k ==> cells@[t] == ' ',
            decreases n - k,
        {
            cells.push(' ');
            k = k + 1;
        }
        let db = DisplayBuffer { shape: Rect { h, w }, screen_buffer: cells };
        proof {
            assert(db.screen_buffer@ =~= Seq::new((h * w) as nat, |t: int| ' '));
        }
        db
    }

    /// Resets every cell to a space. Called once per frame before the
    /// frame's sprites are recomposited.
    pub fn clear(&mut self)
        requires
            old(self).wf(),
        ensures
            final(self).wf(),
            final(self).shape == old(self).shape,
            final(self).screen_buffer@ =~= Seq::new(old(self).screen_buffer@.len(), |k: int| ' '),
    {
        let n = self.screen_buffer.len();
        let mut k: usize = 0;
        while k < n
            invariant
                k <= n,
                self.shape == old(self).shape,
                self.screen_buffer@.len() == n,
                n == old(self).screen_buffer@.len(),
                forall|t: int| 0 <= t < k ==> self.screen_buffer@[t] == ' ',
            decreases n - k,
        {
            self.screen_buffer.set(k, ' ');
            k = k + 1;
        }
        proof {
            assert(self.screen_buffer@ =~= Seq::new(old(self).screen_buffer@.len(), |t: int| ' '));
        }
    }

    /// Writes one cell. The point must lie within the buffer's own shape.
    pub fn set_single(&mut self, point: Point, c: char)
        requires
            old(self).wf(),
            old(self).shape.contains(point.0 as int, point.1 as int),
        ensures
            final(self).wf(),
            final(self).shape == old(self).shape,
            final(self).screen_buffer@ == old(self).screen_buffer@.update(
                old(self).shape.flat_index(point.0 as int, point.1 as int),
                c,
            ),
    {
        // reading the length brings the vector's length bound into scope
        let _len = self.screen_buffer.len();
        let i = self.shape.point_index(point);
        self.screen_buffer.set(i, c);
    }

    /// Composites `sprite` onto the buffer with its top-left origin at the
    /// signed placement `coord`, clipping against the buffer edges. A
    /// placement whose visible window is empty on either axis writes
    /// nothing at all.
    #[verifier::loop_isolation(false)]
    pub fn render(&mut self, coord: Coord, sprite: &Sprite)
        requires
            old(self).wf(),
            sprite.wf(),
        ensures
            final(self).wf(),
            final(self).shape == old(self).shape,
            forall|r: int, c: int|
                #[trigger] old(self).shape.contains(r, c) ==> final(self).screen_buffer@[old(
                    self,
                ).shape.flat_index(r, c)] == composited_cell(
                    old(self).screen_buffer@,
                    old(self).shape,
                    coord,
                    *sprite,
                    r,
                    c,
                ),
            !overlaps(coord, sprite.shape, old(self).shape) ==> final(self).screen_buffer@ == old(
                self,
            ).screen_buffer@,
    {
        let Coord(pos_h, pos_w) = coord;
        let ph = pos_h as i64;
        let pw = pos_w as i64;
        let sh = sprite.shape.h as i64;
        let sw = sprite.shape.w as i64;
        let dh = self.shape.h as i64;
        let dw = self.shape.w as i64;
        let from_i: i64 = if ph < 0 {
            -ph
        } else {
            0
        };
        let from_j: i64 = if pw < 0 {
            -pw
        } else {
            0
        };
        let to_i: i64 = if sh <= dh - ph {
            sh
        } else {
            dh - ph
        };
        let to_j: i64 = if sw <= dw - pw {
            sw
        } else {
            dw - pw
        };
        if to_i <= from_i || to_j <= from_j {
            // the sprite lies entirely off the buffer on some axis
            assert(!overlaps(coord, sprite.shape, self.shape));
            return ;
        }
        assert(overlaps(coord, sprite.shape, self.shape));
        let vis_h: u32 = (to_i - from_i) as u32;
        let vis_w: u32 = (to_j - from_j) as u32;
        let src_i: u32 = from_i as u32;
        let src_j: u32 = from_j as u32;
        let dst_i: u32 = if ph < 0 {
            0
        } else {
            ph as u32
        };
        let dst_j: u32 = if pw < 0 {
            0
        } else {
            pw as u32
        };
        // reading the length brings the vector's length bound into scope
        let _len = self.screen_buffer.len();
        let mut i: u32 = 0;
        while i < vis_h
            invariant
                i <= vis_h,
                self.shape == old(self).shape,
                self.wf(),
                forall|r: int, c: int|
                    #[trigger] old(self).shape.contains(r, c) ==> self.screen_buffer@[old(
                        self,
                    ).shape.flat_index(r, c)] == if dst_i <= r < dst_i + i && dst_j <= c < dst_j
                        + vis_w {
                        sprite.spec_at(r - ph, c - pw)
                    } else {
                        old(self).screen_buffer@[old(self).shape.flat_index(r, c)]
                    },
            decreases vis_h - i,
        {
            let mut j: u32 = 0;
            while j < vis_w
                invariant
                    i < vis_h,
                    j <= vis_w,
                    self.shape == old(self).shape,
                    self.wf(),
                    forall|r: int, c: int|
                        #[trigger] old(self).shape.contains(r, c) ==> self.screen_buffer@[old(
                            self,
                        ).shape.flat_index(r, c)] == if (dst_i <= r < dst_i + i && dst_j <= c
                            < dst_j + vis_w) || (r == dst_i + i && dst_j <= c < dst_j + j) {
                            sprite.spec_at(r - ph, c - pw)
                        } else {
                            old(self).screen_buffer@[old(self).shape.flat_index(r, c)]
                        },
                decreases vis_w - j,
            {
                let ch = sprite.get_ext(Point(src_i + i, src_j + j));
                let di = dst_i + i;
                let dj = dst_j + j;
                let idx = self.shape.local_index(di, dj);
                let ghost prev = self.screen_buffer@;
                self.screen_buffer.set(idx, ch);
                proof {
                    assert(di - ph == src_i + i && dj - pw == src_j + j);
                    assert forall|r: int, c: int| #[trigger]
                        old(self).shape.contains(r, c) implies self.screen_buffer@[old(
                        self,
                    ).shape.flat_index(r, c)] == if (dst_i <= r < dst_i + i && dst_j <= c < dst_j
                        + vis_w) || (r == dst_i + i && dst_j <= c < dst_j + j + 1) {
                        sprite.spec_at(r - ph, c - pw)
                    } else {
                        old(self).screen_buffer@[old(self).shape.flat_index(r, c)]
                    } by {
                        crate::geometry::lemma_flat_index_bounds(
                            old(self).shape.h as int,
                            old(self).shape.w as int,
                            r,
                            c,
                        );
                        if r == di && c == dj {
                        } else {
                            if old(self).shape.flat_index(r, c) == old(self).shape.flat_index(
                                di as int,
                                dj as int,
                            ) {
                                lemma_flat_index_injective(
                                    old(self).shape.w as int,
                                    r,
                                    c,
                                    di as int,
                                    dj as int,
                                );
                            }
                            assert(self.screen_buffer@[old(self).shape.flat_index(r, c)] == prev[old(
                                self,
                            ).shape.flat_index(r, c)]);
                        }
                    }
                }
                j = j + 1;
            }
            i = i + 1;
        }
        proof {
            assert forall|r: int, c: int| #[trigger]
                old(self).shape.contains(r, c) implies self.screen_buffer@[old(
                self,
            ).shape.flat_index(r, c)] == composited_cell(
                old(self).screen_buffer@,
                old(self).shape,
                coord,
                *sprite,
                r,
                c,
            ) by {}
        }
    }
}

impl Sprite {
    /// An immutable sprite snapshot of the buffer's current contents,
    /// with the buffer's extent and cells.
    pub fn snapshot(display: &DisplayBuffer) -> (s: Sprite)
        requires
            display.wf(),
        ensures
            s.wf(),
            s.shape == display.shape,
            s.texture@ == display.screen_buffer@,
    {
        let n = display.screen_buffer.len();
        let mut texture: Vec<char> = Vec::new();
        let mut k: usize = 0;
        while k < n
            invariant
                k <= n,
                n == display.screen_buffer@.len(),
                texture@ == display.screen_buffer@.take(k as int),
            decreases n - k,
        {
            texture.push(display.screen_buffer[k]);
            proof {
                assert(texture@ =~= display.screen_buffer@.take(k + 1));
            }
            k = k + 1;
        }
        proof {
            assert(display.screen_buffer@.take(n as int) =~= display.screen_buffer@);
        }
        Sprite { shape: display.shape, texture }
    }
}

} // verus!
