use galley::font::{Font, REPLACEMENT_CHAR};
use galley::galley::{Galley, Line};
use galley::glyph::{GlyphInfo, UvRect, Vec2i};

fn query_font() -> Font {
    let replacement = GlyphInfo { id: 1, advance_width: 7, uv_rect: None };
    let mut font = Font::new(replacement, 13);
    let mut id: u32 = 2;
    for c in " abcdefghijklmnopqrstuvwxyzOnel.".chars() {
        font.insert_glyph(c, Some(GlyphInfo { id, advance_width: 7, uv_rect: None }));
        id += 1;
    }
    font
}

fn chars(s: &str) -> Vec<char> {
    s.chars().collect()
}

#[test]
fn char_start_pos_walks_lines() {
    let font = query_font();
    let galley = font.layout_multiline(chars("ab\ncd"), 1024);
    // First line: offsets 0, 7, 14 at y 0; implicit break is index 2.
    assert_eq!(galley.char_start_pos(0), Vec2i { x: 0, y: 0 });
    assert_eq!(galley.char_start_pos(1), Vec2i { x: 7, y: 0 });
    assert_eq!(galley.char_start_pos(2), Vec2i { x: 14, y: 0 });
    // Second line starts at y 18 (13 plus the paragraph gap of 5).
    assert_eq!(galley.char_start_pos(3), Vec2i { x: 0, y: 18 });
    assert_eq!(galley.char_start_pos(4), Vec2i { x: 7, y: 18 });
    // Past the end: the end of the last line.
    assert_eq!(galley.char_start_pos(5), Vec2i { x: 14, y: 18 });
    assert_eq!(galley.char_start_pos(100), Vec2i { x: 14, y: 18 });
}

#[test]
fn char_start_pos_empty_galley_is_origin() {
    let galley = Galley { text: Vec::new(), lines: Vec::new(), size: Vec2i { x: 0, y: 0 } };
    assert!(galley.sanity_check());
    assert_eq!(galley.char_start_pos(0), Vec2i { x: 0, y: 0 });
    let cursor = galley.char_at(Vec2i { x: 40, y: 40 });
    assert_eq!(cursor.char_idx, 0);
    assert_eq!(cursor.line, 0);
    assert_eq!(cursor.column, 0);
}

#[test]
fn line_char_at_picks_first_midpoint_beyond() {
    let line = Line { x_offsets: vec![0, 8, 20], y_min: 0, y_max: 13, ends_with_newline: false };
    assert_eq!(line.char_at(-5), 0);
    assert_eq!(line.char_at(0), 0);
    assert_eq!(line.char_at(3), 0);
    // A position exactly on a midpoint selects the following character.
    assert_eq!(line.char_at(4), 1);
    assert_eq!(line.char_at(13), 1);
    // Exactly on the second midpoint (8 + 20) / 2.
    assert_eq!(line.char_at(14), 2);
    assert_eq!(line.char_at(1000), 2);
}

#[test]
fn char_at_picks_vertically_closest_line_first_wins() {
    let font = query_font();
    let galley = font.layout_multiline(chars("ab\ncd"), 1024);
    // Lines span y 0..13 and 18..31.
    let cursor = galley.char_at(Vec2i { x: 0, y: 5 });
    assert_eq!(cursor.line, 0);
    let cursor = galley.char_at(Vec2i { x: 0, y: 25 });
    assert_eq!(cursor.line, 1);
    // y = 15: distance 2 to the first line's bottom, 3 to the second's
    // top; the first line wins.
    let cursor = galley.char_at(Vec2i { x: 0, y: 15 });
    assert_eq!(cursor.line, 0);
    // y = 16: now the second line is strictly closer.
    let cursor = galley.char_at(Vec2i { x: 0, y: 16 });
    assert_eq!(cursor.line, 1);
    assert_eq!(cursor.char_idx, 3);
    assert_eq!(cursor.column, 0);
}

#[test]
fn char_at_round_trip_stays_in_range() {
    let font = query_font();
    let galley = font.layout_single_line(chars("One line."));
    let len = galley.text.len();
    for i in 0..=len + 2 {
        let pos = galley.char_start_pos(i);
        let cursor = galley.char_at(pos);
        assert!(cursor.char_idx <= len);
        assert_eq!(cursor.line, 0);
        assert_eq!(cursor.column, cursor.char_idx);
    }
}

#[test]
fn glyph_resolution_is_idempotent() {
    let font = query_font();
    let first = font.glyph_info('a');
    let second = font.glyph_info('a');
    assert_eq!(first, second);
    // An uncached character resolves to the replacement metrics, twice.
    let once = font.glyph_info('√');
    let again = font.glyph_info('√');
    assert_eq!(once, again);
    assert_eq!(once.id, font.glyph_info(REPLACEMENT_CHAR).id);
}

#[test]
fn missing_glyph_is_cached_under_original_character() {
    let mut font = query_font();
    assert!(!font.is_cached('√'));
    // The rasterizer reports no glyph; the replacement metrics are
    // cached under the original character.
    let info = font.insert_glyph('√', None);
    assert_eq!(info.id, 1);
    assert!(font.is_cached('√'));
    assert_eq!(font.glyph_info('√').id, 1);
}

#[test]
fn uv_rect_reads_cache_without_substitution() {
    let mut font = query_font();
    // Cached glyph without visible pixels: no texture rectangle.
    assert_eq!(font.uv_rect(' '), None);
    // Uncached character: no texture rectangle either.
    assert_eq!(font.uv_rect('√'), None);
    let rect = UvRect::from_allocation(Vec2i { x: 1, y: -2 }, (10, 20), 3, 4);
    font.insert_glyph('x', Some(GlyphInfo { id: 99, advance_width: 7, uv_rect: Some(rect) }));
    let got = font.uv_rect('x').unwrap();
    assert_eq!(got.min, (10, 20));
    assert_eq!(got.max, (13, 24));
    assert_eq!(got.size, Vec2i { x: 3, y: 4 });
    assert_eq!(got.offset, Vec2i { x: 1, y: -2 });
}

#[test]
fn sanity_check_rejects_corrupted_galleys() {
    let font = query_font();
    let mut galley = font.layout_multiline(chars("ab\ncd"), 1024);
    assert!(galley.sanity_check());
    // Character counts no longer match the text.
    galley.text.push('x');
    assert!(!galley.sanity_check());
    // A line whose offsets are empty is rejected.
    let bad = Line { x_offsets: Vec::new(), y_min: 0, y_max: 1, ends_with_newline: false };
    assert!(!bad.sanity_check());
    // Offsets that decrease are rejected.
    let bad = Line { x_offsets: vec![0, 5, 3], y_min: 0, y_max: 1, ends_with_newline: false };
    assert!(!bad.sanity_check());
}

#[test]
fn line_spacing_and_height_report_the_font_height() {
    let font = query_font();
    assert_eq!(font.line_spacing(), 13);
    assert_eq!(font.height(), 13);
}

#[test]
fn line_counts_include_the_implicit_break() {
    let line = Line { x_offsets: vec![0, 7], y_min: 0, y_max: 13, ends_with_newline: true };
    assert_eq!(line.char_count_excluding_newline(), 1);
    assert_eq!(line.char_count_including_newline(), 2);
    assert_eq!(line.min_x(), 0);
    assert_eq!(line.max_x(), 7);
}
