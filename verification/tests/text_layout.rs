use galley::font::{Font, REPLACEMENT_CHAR};
use galley::glyph::GlyphInfo;

/// A synthetic monospace font: every printable character advances 7
/// device pixels, the line height is 13, and there is no kerning.
fn test_font() -> Font {
    let replacement = GlyphInfo { id: 1, advance_width: 7, uv_rect: None };
    let mut font = Font::new(replacement, 13);
    let mut id: u32 = 2;
    for c in " abcdefghijklmnopqrstuvwxyzABCDEFGHIJKLMNOPQRSTUVWXYZ.!,°".chars() {
        font.insert_glyph(c, Some(GlyphInfo { id, advance_width: 7, uv_rect: None }));
        id += 1;
    }
    font
}

fn chars(s: &str) -> Vec<char> {
    s.chars().collect()
}

#[test]
fn test_text_layout() {
    let font = test_font();

    let galley = font.layout_multiline(chars(""), 1024);
    assert_eq!(galley.lines.len(), 1);
    assert_eq!(galley.lines[0].ends_with_newline, false);
    assert_eq!(galley.lines[0].x_offsets, vec![0]);

    let galley = font.layout_multiline(chars("\n"), 1024);
    assert_eq!(galley.lines.len(), 2);
    assert_eq!(galley.lines[0].ends_with_newline, true);
    assert_eq!(galley.lines[1].ends_with_newline, false);
    assert_eq!(galley.lines[1].x_offsets, vec![0]);

    let galley = font.layout_multiline(chars("\n\n"), 1024);
    assert_eq!(galley.lines.len(), 3);
    assert_eq!(galley.lines[0].ends_with_newline, true);
    assert_eq!(galley.lines[1].ends_with_newline, true);
    assert_eq!(galley.lines[2].ends_with_newline, false);
    assert_eq!(galley.lines[2].x_offsets, vec![0]);

    let galley = font.layout_multiline(chars(" "), 1024);
    assert_eq!(galley.lines.len(), 1);
    assert_eq!(galley.lines[0].ends_with_newline, false);

    let galley = font.layout_multiline(chars("One line"), 1024);
    assert_eq!(galley.lines.len(), 1);
    assert_eq!(galley.lines[0].ends_with_newline, false);

    let galley = font.layout_multiline(chars("First line\n"), 1024);
    assert_eq!(galley.lines.len(), 2);
    assert_eq!(galley.lines[0].ends_with_newline, true);
    assert_eq!(galley.lines[1].ends_with_newline, false);
    assert_eq!(galley.lines[1].x_offsets, vec![0]);

    // Test wrapping:
    let galley = font.layout_multiline(chars("line wrap"), 10);
    assert_eq!(galley.lines.len(), 2);
    assert_eq!(galley.lines[0].ends_with_newline, false);
    assert_eq!(galley.lines[1].ends_with_newline, false);

    let galley = font.layout_multiline(chars("line\nwrap"), 10);
    assert_eq!(galley.lines.len(), 2);
    assert_eq!(galley.lines[0].ends_with_newline, true);
    assert_eq!(galley.lines[1].ends_with_newline, false);
}

#[test]
fn char_counts_sum_to_text_length() {
    let font = test_font();
    for text in ["", "\n", "\n\n", "a b\ncd e\n", "one two three", "line wrap here"] {
        let galley = font.layout_multiline(chars(text), 20);
        let sum: usize = galley
            .lines
            .iter()
            .map(|line| line.char_count_including_newline())
            .sum();
        assert_eq!(sum, text.chars().count());
        assert!(galley.sanity_check());
    }
}

#[test]
fn last_line_never_ends_with_newline() {
    let font = test_font();
    for text in ["", "\n", "abc\n", "abc\ndef", "a\n\nb\n"] {
        let galley = font.layout_multiline(chars(text), 1024);
        assert!(!galley.lines.last().unwrap().ends_with_newline);
    }
}

#[test]
fn offsets_non_decreasing_and_one_longer_than_line() {
    let font = test_font();
    let galley = font.layout_multiline(chars("some text to wrap\nand a second paragraph"), 30);
    for line in &galley.lines {
        assert_eq!(line.x_offsets.len(), line.char_count_excluding_newline() + 1);
        assert_eq!(line.x_offsets[0], 0);
        for w in line.x_offsets.windows(2) {
            assert!(w[0] <= w[1]);
        }
    }
}

#[test]
fn space_only_string_wraps_to_one_line() {
    let font = test_font();
    // Even at a maximum width narrower than the space itself.
    let galley = font.layout_multiline(chars(" "), 3);
    assert_eq!(galley.lines.len(), 1);
    let lines = font.layout_paragraph_max_width(&chars(" "), 0);
    assert_eq!(lines.len(), 1);
}

#[test]
fn single_line_layout_shape() {
    let font = test_font();
    let galley = font.layout_single_line(chars("abc"));
    assert_eq!(galley.lines.len(), 1);
    assert_eq!(galley.lines[0].x_offsets, vec![0, 7, 14, 21]);
    assert_eq!(galley.lines[0].y_min, 0);
    assert_eq!(galley.lines[0].y_max, 13);
    assert_eq!(galley.lines[0].ends_with_newline, false);
    assert_eq!(galley.size.x, 21);
    assert_eq!(galley.size.y, 13);
    assert!(galley.sanity_check());
}

#[test]
fn fragment_offsets_accumulate_advances_and_kerning() {
    let mut font = test_font();
    // 'a' has id 3, 'b' id 4 in the synthetic font ordering.
    let a_id = font.glyph_info('a').id;
    let b_id = font.glyph_info('b').id;
    font.insert_kerning(a_id, b_id, -2);
    assert_eq!(font.kerning_adjustment(a_id, b_id), -2);
    assert_eq!(font.kerning_adjustment(b_id, a_id), 0);
    let offsets = font.layout_single_line_fragment(&chars("ab"));
    assert_eq!(offsets, vec![0, 7, 12]);
    // No kerning recorded between 'b' and 'a'.
    let offsets = font.layout_single_line_fragment(&chars("ba"));
    assert_eq!(offsets, vec![0, 7, 14]);
}

#[test]
fn kerning_never_pulls_cursor_backwards() {
    let mut font = test_font();
    let a_id = font.glyph_info('a').id;
    let b_id = font.glyph_info('b').id;
    // A pathological adjustment larger than the advance is clamped so
    // that offsets stay non-decreasing.
    font.insert_kerning(a_id, b_id, -100);
    let offsets = font.layout_single_line_fragment(&chars("ab"));
    assert_eq!(offsets, vec![0, 7, 7]);
}

#[test]
fn unknown_characters_use_replacement_metrics() {
    let font = test_font();
    // '√' was never cached, so it resolves to the replacement glyph.
    let info = font.glyph_info('√');
    assert_eq!(info.id, font.glyph_info(REPLACEMENT_CHAR).id);
    let galley = font.layout_single_line(chars("√√"));
    assert_eq!(galley.lines[0].x_offsets, vec![0, 7, 14]);
}

#[test]
fn paragraph_gap_stacks_lines_vertically() {
    let font = test_font();
    // Line spacing 13; the inter-paragraph gap is 2 * 13 / 5 == 5.
    let galley = font.layout_multiline(chars("a\nb"), 1024);
    assert_eq!(galley.lines.len(), 2);
    assert_eq!(galley.lines[0].y_min, 0);
    assert_eq!(galley.lines[0].y_max, 13);
    assert_eq!(galley.lines[1].y_min, 18);
    assert_eq!(galley.lines[1].y_max, 31);
    assert_eq!(galley.size.y, 31);
    assert_eq!(galley.size.x, 7);
}

#[test]
fn galley_size_spans_widest_line() {
    let font = test_font();
    let galley = font.layout_multiline(chars("ab\nabcd\na"), 1024);
    assert_eq!(galley.size.x, 28);
    assert_eq!(galley.size.y, galley.lines.last().unwrap().y_max);
}

#[test]
fn wrapped_line_keeps_trailing_space() {
    let font = test_font();
    // "line wrap" at width 10: the cut falls after the space, which
    // stays on the first line.
    let galley = font.layout_multiline(chars("line wrap"), 10);
    assert_eq!(galley.lines[0].char_count_excluding_newline(), 5);
    assert_eq!(galley.lines[1].char_count_excluding_newline(), 4);
    // The second line is rebased to start at zero.
    assert_eq!(galley.lines[1].x_offsets[0], 0);
}

#[test]
fn non_breaking_space_is_not_a_wrap_candidate() {
    let mut font = test_font();
    font.insert_glyph(
        galley::font::NON_BREAKING_SPACE,
        Some(GlyphInfo { id: 200, advance_width: 7, uv_rect: None }),
    );
    // "ab\u{a0}cd" at width 10 has no break opportunity: one line.
    let mut text = chars("ab");
    text.push(galley::font::NON_BREAKING_SPACE);
    text.extend(chars("cd"));
    let galley = font.layout_multiline(text, 10);
    assert_eq!(galley.lines.len(), 1);
    // An ordinary space in the same position does allow a break.
    let galley = font.layout_multiline(chars("ab cd"), 10);
    assert_eq!(galley.lines.len(), 2);
}

#[test]
fn unbreakable_run_may_exceed_max_width() {
    let font = test_font();
    let galley = font.layout_multiline(chars("abcdefgh"), 10);
    assert_eq!(galley.lines.len(), 1);
    assert!(galley.lines[0].max_x() > 10);
}
