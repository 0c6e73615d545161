use vstd::prelude::*;

use crate::font::{wrap_scan, Font};
use crate::galley::{
    count_prefix, galley_char_at_from, galley_char_pos_from, lemma_line_char_at_from_bounds,
    y_dist, Galley,
};
use crate::glyph::GlyphInfo;

verus! {

/// A paragraph of a single character always wraps to exactly one
/// line, whatever the maximum width: a cut needs a wrap candidate
/// strictly before the character that overflows, and a lone character
/// has none. In particular a single space-only string wraps to one
/// line.
pub proof fn lemma_single_char_one_line(f: Font, c: char, max: int)
    ensures
        f.spec_wrap_count(seq![c], max) == 1,
{
    let text = seq![c];
    let xs = f.spec_offsets(text);
    let ws = f.spec_wrap_flags(text);
    let ls2: Option<int> = if ws[0] {
        Some(0int)
    } else {
        None
    };
    assert(ws.len() == 1);
    assert(wrap_scan(xs, ws, max, 1, 0, ls2) =~= Seq::<int>::empty());
    assert(wrap_scan(xs, ws, max, 0, 0, None) =~= Seq::<int>::empty());
    assert(f.spec_breaks(text, max).len() == 2);
}

/// Glyph resolution is idempotent and the cache is stable: caching the
/// outcome for one character fixes what that character resolves to,
/// and never disturbs what any other character resolves to. Two
/// resolutions of the same character therefore always agree.
pub proof fn lemma_glyph_resolution_idempotent(f1: Font, f2: Font, c: char, d: char, g: GlyphInfo)
    requires
        f2.glyphs_map() == f1.glyphs_map().insert(d as u32, g),
        f2.replacement() == f1.replacement(),
    ensures
        f2.resolved(d) == g,
        c != d ==> f2.resolved(c) == f1.resolved(c),
{
}

/// Round-trip stability on a single-line galley: taking the position
/// of any character index and asking which character sits there gives
/// a cursor on that line whose index is within `[0, text.len()]` and
/// whose column equals its index.
pub proof fn lemma_single_line_roundtrip(g: Galley, idx: int)
    requires
        g.wf(),
        g.lines@.len() == 1,
    ensures
        ({
            let p = g.spec_char_pos(idx);
            let cur = g.spec_char_at(p.0, p.1);
            &&& 0 <= cur.0 <= g.text@.len()
            &&& cur.1 == 0
            &&& cur.2 == cur.0
        }),
{
    let l = g.lines@[0];
    assert(l.wf());
    let p = g.spec_char_pos(idx);
    assert(count_prefix(g.lines@, 1) == count_prefix(g.lines@, 0) + l.spec_count_incl());
    assert(l.spec_count_incl() == g.text@.len());
    assert(l.spec_count_incl() == l.spec_count_excl());
    // Whether `idx` lies on the line or past its end, the position
    // returned sits at the line's top.
    if idx < 0 + l.spec_count_incl() {
        assert(p == (l.x_offsets@[idx - 0] as int, l.y_min as int));
    } else {
        assert(galley_char_pos_from(g.lines@, idx, 1, 0 + l.spec_count_incl()) == (
            l.x_offsets@.last() as int,
            l.y_min as int,
        ));
    }
    assert(p.1 == l.y_min as int);
    let d = y_dist(l, p.1);
    assert(d == 0);
    let col = l.spec_char_at(p.0);
    lemma_line_char_at_from_bounds(l.x_offsets@, p.0, 0);
    assert(0 <= col <= l.spec_count_excl());
    assert(galley_char_at_from(
        g.lines@,
        p.0,
        p.1,
        1,
        0 + l.spec_count_incl(),
        d,
        (0 + col, 0, col),
    ) == (col, 0int, col));
    assert(g.spec_char_at(p.0, p.1) == (col, 0int, col));
}

} // verus!
