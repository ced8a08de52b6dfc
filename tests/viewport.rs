use dirman::text::chars_of;
use dirman::view::{arrow_run, clip_line, draw_outline, Color, ColoredString, CurrentArea, Edge, ScrollableArea, Vector2};

fn line(parts: &[(&str, Option<Color>)]) -> Vec<ColoredString> {
    parts
        .iter()
        .map(|(s, col)| match col {
            Some(k) => ColoredString::colored(chars_of(s), *k),
            None => ColoredString::normal(chars_of(s)),
        })
        .collect()
}

fn text(pieces: &[ColoredString]) -> String {
    pieces.iter().flat_map(|p| p.string.iter()).collect()
}

#[test]
fn clipping_takes_the_window() {
    let l = line(&[("abcdefghij", None)]);
    assert_eq!(text(&clip_line(&l, 2, 5)), "cdefg");
    assert_eq!(text(&clip_line(&l, 8, 5)), "ij");
    assert_eq!(text(&clip_line(&l, 12, 5)), "");
}

#[test]
fn clipping_keeps_colours_across_pieces() {
    let l = line(&[("├─ ", None), ("dir", Some(Color::Blue)), (": 1", Some(Color::Green))]);
    let r = clip_line(&l, 2, 5);
    assert_eq!(text(&r), " dir:");
    assert_eq!(r.len(), 3);
    assert_eq!(r[0].color, None);
    assert_eq!(r[1].color, Some(Color::Blue));
    assert_eq!(text(&r[2..]), ":");
    assert_eq!(r[2].color, Some(Color::Green));
    let wide = line(&[("日本語テキスト", None)]);
    assert_eq!(text(&clip_line(&wide, 1, 3)), "本語テ");
}

#[test]
fn arrow_runs_are_centred() {
    // span 10, stride 5: 2 glyphs, run of 6, first at 1 + (10 - 6) / 2
    assert_eq!(arrow_run(10, 5), (3, 2));
    assert_eq!(arrow_run(1, 5), (1, 1));
    assert_eq!(arrow_run(11, 5), (1, 3));
    assert_eq!(arrow_run(7, 3), (1, 3));
    assert_eq!(arrow_run(8, 3), (1, 3));
}

fn area_with(lines: usize, width: usize) -> ScrollableArea {
    let mut a = ScrollableArea::new(Vector2 { x: 0, y: 2 }, Vector2 { x: 14, y: 7 });
    let content: Vec<Vec<ColoredString>> =
        (0..lines).map(|_| line(&[(&"x".repeat(width), None)])).collect();
    a.set_contents(content);
    a
}

#[test]
fn indicators_follow_scrolling() {
    // inner size 10 x 5; content 12 wide, 9 high
    let mut a = area_with(9, 12);
    let i = a.indicators();
    assert!(!i.top && !i.left && i.right && i.bottom);
    a.scroll(Edge::Bottom);
    assert_eq!(a.curr_pos.y, 4);
    let i = a.indicators();
    assert!(i.top && !i.bottom);
    a.scroll(Edge::Bottom);
    assert_eq!(a.curr_pos.y, 4);
    a.scroll(Edge::Right);
    assert_eq!(a.curr_pos.x, 2);
    let i = a.indicators();
    assert!(i.left && !i.right);
    a.scroll(Edge::Top);
    a.scroll(Edge::Left);
    let i = a.indicators();
    assert!(!i.top && !i.left && i.right && i.bottom);
}

#[test]
fn content_that_fits_shows_no_far_indicator() {
    let a = area_with(3, 4);
    let i = a.indicators();
    assert!(!i.top && !i.left && !i.right && !i.bottom);
}

#[test]
fn reload_pulls_the_offset_back() {
    let mut a = area_with(20, 30);
    for _ in 0..5 {
        a.scroll(Edge::Bottom);
        a.scroll(Edge::Right);
    }
    assert_eq!(a.curr_pos, Vector2 { x: 20, y: 15 });
    let smaller: Vec<Vec<ColoredString>> = (0..7).map(|_| line(&[("yyyyyyyyyyyy", None)])).collect();
    a.set_contents(smaller);
    assert_eq!(a.curr_pos, Vector2 { x: 2, y: 2 });
    assert_eq!(a.longest_line_len, 12);
}

#[test]
fn frame_places_rows_and_marks() {
    let mut a = area_with(9, 12);
    a.scroll(Edge::Bottom);
    let f = a.draw();
    assert_eq!(f.rows.len(), 5);
    assert_eq!((f.rows[0].x, f.rows[0].y), (2, 3));
    assert_eq!(text(&f.rows[4].pieces), "xxxxxxxxxx");
    // top edge: span 12 at stride 5 gives 3 glyphs from column 1; right edge: span 5 at stride 3 gives 2 from row 1
    let top: Vec<(usize, usize)> = f.marks.iter().filter(|m| m.edge == Edge::Top).map(|m| (m.x, m.y)).collect();
    assert_eq!(top, vec![(1, 2), (6, 2), (11, 2)]);
    let right: Vec<(usize, usize)> = f.marks.iter().filter(|m| m.edge == Edge::Right).map(|m| (m.x, m.y)).collect();
    assert_eq!(right, vec![(13, 3), (13, 6)]);
    assert!(f.marks.iter().all(|m| m.edge != Edge::Bottom && m.edge != Edge::Left));
}

#[test]
fn outline_highlights_the_selected_panel() {
    let o = draw_outline(10, 8, CurrentArea::Tree);
    assert_eq!(o.line_x, 5);
    assert_eq!(o.rows, 4);
    assert_eq!(text(&o.top), "━━━━━┳━━━━");
    assert_eq!(o.top[0].color, Some(Color::Red));
    assert_eq!(o.top[2].color, None);
    assert_eq!(o.bottom[2].color, None);
    let o = draw_outline(10, 8, CurrentArea::Command);
    assert_eq!(o.divider.color, None);
    assert_eq!(o.bottom[0].color, Some(Color::Red));
    assert_eq!(o.bottom[1].color, Some(Color::Red));
}

#[test]
fn vector_arithmetic() {
    let a = Vector2 { x: 3, y: 4 };
    assert_eq!(a.add(Vector2 { x: 1, y: 2 }), Vector2 { x: 4, y: 6 });
    assert_eq!(a.sub(Vector2 { x: 1, y: 2 }), Vector2 { x: 2, y: 2 });
    let mut b = a;
    b.add_assign(Vector2 { x: 10, y: 10 });
    assert_eq!(b, Vector2 { x: 13, y: 14 });
}
