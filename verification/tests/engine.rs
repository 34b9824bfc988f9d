use monadic::display::{DisplayBuffer, DisplayConfig};
use monadic::geometry::{Coord, Point, Rect};
use monadic::input::{apply_key, indicator_position, Indicator};
use monadic::sprite::Sprite;

fn texture_string(s: &Sprite) -> String {
    s.texture.iter().collect()
}

fn buffer_string(b: &DisplayBuffer) -> String {
    b.screen_buffer.iter().collect()
}

#[test]
fn whitespace_only_inputs_give_empty_sprite() {
    for src in ["", " ", "   ", "\n", "\t \r\n  \n", " \u{2003}\u{a0} ", "\r\n\r\n"] {
        let s = Sprite::new(src);
        assert_eq!(s.shape.h, 0);
        assert_eq!(s.shape.w, 0);
        assert!(s.texture.is_empty());
    }
}

#[test]
fn bounding_box_is_tight() {
    let s = Sprite::new("\n  ab \n  cd\n\n");
    assert_eq!(s.shape, Rect { h: 2, w: 2 });
    assert_eq!(texture_string(&s), "abcd");
}

#[test]
fn interior_spaces_are_kept() {
    let s = Sprite::new("  # # \n"); // spaces inside the box are content
    assert_eq!(s.shape, Rect { h: 1, w: 3 });
    assert_eq!(texture_string(&s), "# #");
}

#[test]
fn ragged_lines_are_right_padded() {
    let s = Sprite::new("x\nxxx");
    assert_eq!(s.shape, Rect { h: 2, w: 3 });
    assert_eq!(texture_string(&s), "x  xxx");
}

#[test]
fn interior_blank_line_pads_with_spaces() {
    let s = Sprite::new("#\n\n#");
    assert_eq!(s.shape, Rect { h: 3, w: 1 });
    assert_eq!(texture_string(&s), "# #");
}

#[test]
fn crlf_line_ends_are_stripped() {
    let s = Sprite::new("##\r\n##\r\n");
    assert_eq!(s.shape, Rect { h: 2, w: 2 });
    assert_eq!(texture_string(&s), "####");
}

#[test]
fn bare_trailing_carriage_return_is_kept() {
    // no line feed follows, so the carriage return is in-box content
    let s = Sprite::new("ab\nx\r");
    assert_eq!(s.shape, Rect { h: 2, w: 2 });
    assert_eq!(s.texture, vec!['a', 'b', 'x', '\r']);
}

#[test]
fn reparse_of_stripped_serialization_is_identical() {
    let s = Sprite::new("\n ## \n #  \n");
    let framed = s.to_text();
    let inner: Vec<&str> = framed.lines().collect();
    let stripped: Vec<String> = inner[1..inner.len() - 1]
        .iter()
        .map(|l| l[1..l.len() - 1].to_string())
        .collect();
    let rejoined = stripped.join("\n");
    let t = Sprite::new(&rejoined);
    assert_eq!(t.shape, s.shape);
    assert_eq!(t.texture, s.texture);
}

#[test]
fn index_math_is_row_major() {
    let r = Rect { h: 3, w: 4 };
    assert_eq!(r.local_index(0, 0), 0);
    assert_eq!(r.local_index(0, 3), 3);
    assert_eq!(r.local_index(1, 0), 4);
    assert_eq!(r.local_index(2, 3), 11);
    assert_eq!(r.point_index(Point(2, 1)), 9);
}

#[test]
fn get_respects_the_shape() {
    let s = Sprite::new("ab\ncd");
    assert_eq!(s.get(Point(0, 0)), Some('a'));
    assert_eq!(s.get(Point(1, 1)), Some('d'));
    // in flat range of the texture, but outside the shape
    assert_eq!(s.get(Point(0, 3)), None);
    assert_eq!(s.get(Point(2, 0)), None);
    assert_eq!(s.get_ext(Point(1, 0)), 'c');
    assert_eq!(s.get_ext(Point(9, 9)), ' ');
}

#[test]
fn init_fills_with_spaces() {
    let b = DisplayBuffer::init(2, 3);
    assert_eq!(b.shape, Rect { h: 2, w: 3 });
    assert_eq!(buffer_string(&b), "      ");
}

#[test]
fn init_with_uses_the_config() {
    let c = DisplayConfig::default();
    assert_eq!((c.h, c.w), (50, 100));
    let b = DisplayBuffer::init_with(&DisplayConfig { h: 4, w: 7 });
    assert_eq!(b.shape, Rect { h: 4, w: 7 });
    assert_eq!(b.screen_buffer.len(), 28);
}

#[test]
fn set_single_writes_one_cell() {
    let mut b = DisplayBuffer::init(2, 2);
    b.set_single(Point(1, 0), '@');
    assert_eq!(buffer_string(&b), "  @ ");
}

#[test]
fn composite_fully_within_bounds() {
    let mut b = DisplayBuffer::init(5, 5);
    b.set_single(Point(0, 0), 'z');
    let s = Sprite::new("ab\ncd");
    b.render(Coord(1, 2), &s);
    assert_eq!(buffer_string(&b), "z      ab   cd           ");
}

#[test]
fn fully_offscreen_composite_is_a_noop() {
    let s = Sprite::new("###\n###\n###");
    let mut b = DisplayBuffer::init(4, 4);
    b.set_single(Point(2, 2), 'x');
    let before = b.screen_buffer.clone();
    for pos in [
        Coord(-3, 0),
        Coord(4, 0),
        Coord(0, -3),
        Coord(0, 4),
        Coord(-7, -7),
        Coord(100, 100),
    ] {
        b.render(pos, &s);
        assert_eq!(b.screen_buffer, before);
    }
}

#[test]
fn empty_sprite_composites_to_a_noop() {
    let s = Sprite::new("  \n ");
    let mut b = DisplayBuffer::init(3, 3);
    b.set_single(Point(1, 1), 'x');
    let before = b.screen_buffer.clone();
    b.render(Coord(0, 0), &s);
    assert_eq!(b.screen_buffer, before);
}

#[test]
fn negative_placement_clips_the_top_left() {
    let s = Sprite::new("###\n###\n###");
    assert_eq!(s.shape, Rect { h: 3, w: 3 });
    let mut b = DisplayBuffer::init(10, 10);
    b.render(Coord(-1, -1), &s);
    for r in 0..10u32 {
        for c in 0..10u32 {
            let got = b.screen_buffer[(r * 10 + c) as usize];
            if r < 2 && c < 2 {
                assert_eq!(got, '#', "cell ({r}, {c})");
            } else {
                assert_eq!(got, ' ', "cell ({r}, {c})");
            }
        }
    }
}

#[test]
fn clear_then_serialize_gives_a_blank_frame() {
    let mut b = DisplayBuffer::init(3, 4);
    b.set_single(Point(0, 0), '#');
    b.set_single(Point(2, 3), '#');
    b.clear();
    assert_eq!(b.get_buffer(), "+----+\n|    |\n|    |\n|    |\n+----+\n");
}

#[test]
fn sprite_preview_is_bordered() {
    let s = Sprite::new("x");
    assert_eq!(s.to_text(), "+-+\n|x|\n+-+\n");
}

#[test]
fn worked_example_margins_and_composite() {
    let s = Sprite::new("\n ## \n ## \n");
    assert_eq!(s.shape, Rect { h: 2, w: 2 });
    assert_eq!(texture_string(&s), "####");
    let mut b = DisplayBuffer::init(4, 4);
    b.clear();
    b.render(Coord(1, 1), &s);
    let rows: Vec<String> = (0..4)
        .map(|r| b.screen_buffer[r * 4..(r + 1) * 4].iter().collect())
        .collect();
    assert_eq!(rows, vec!["    ", " ## ", " ## ", "    "]);
    assert_eq!(b.get_buffer(), "+----+\n|    |\n| ## |\n| ## |\n|    |\n+----+\n");
}

#[test]
fn later_composites_overwrite_earlier_ones() {
    let a = Sprite::new("aa\naa");
    let z = Sprite::new("z");
    let mut b = DisplayBuffer::init(3, 3);
    b.render(Coord(0, 0), &a);
    b.render(Coord(1, 1), &z);
    assert_eq!(buffer_string(&b), "aa az    ");
}

#[test]
fn ball_demo_frame() {
    let ball = Sprite::new(" ## \n####\n####\n ## \n");
    assert_eq!(ball.shape, Rect { h: 4, w: 4 });
    let mut b = DisplayBuffer::init(20, 20);
    b.clear();
    b.render(Coord(2, 2), &ball);
    assert_eq!(b.screen_buffer[2 * 20 + 2], ' ');
    assert_eq!(b.screen_buffer[2 * 20 + 3], '#');
    assert_eq!(b.screen_buffer[3 * 20 + 2], '#');
    assert_eq!(b.screen_buffer[5 * 20 + 5], ' ');
    let framed = b.get_buffer();
    assert_eq!(framed.lines().count(), 22);
    assert!(framed.lines().nth(3).unwrap().starts_with("|   ##"));
}

#[test]
fn snapshot_copies_the_buffer() {
    let mut b = DisplayBuffer::init(2, 3);
    b.set_single(Point(0, 1), '#');
    b.set_single(Point(1, 2), '@');
    let s = Sprite::snapshot(&b);
    assert_eq!(s.shape, b.shape);
    assert_eq!(s.texture, b.screen_buffer);
    assert_eq!(s.to_text(), b.get_buffer());
}

#[test]
fn resolve_display_config_falls_back_to_the_default() {
    let c = monadic::display::resolve_display_config(None);
    assert_eq!((c.h, c.w), (50, 100));
    let c = monadic::display::resolve_display_config(Some(DisplayConfig { h: 7, w: 9 }));
    assert_eq!((c.h, c.w), (7, 9));
}

#[test]
fn apply_key_updates_indicator_and_quits_on_q() {
    let mut ind = Indicator('@');
    assert!(!apply_key(&mut ind, 'a'));
    assert_eq!(ind.0, 'a');
    assert!(apply_key(&mut ind, 'q'));
    assert_eq!(ind.0, 'q');
}

#[test]
fn indicator_position_sits_five_rows_above_the_bottom() {
    let p = indicator_position(&Rect { h: 20, w: 40 }, 45);
    assert_eq!(p, Point(15, 5));
    let p = indicator_position(&Rect { h: 3, w: 2 }, 7);
    assert_eq!(p, Point(0, 1));
}
