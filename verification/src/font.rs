use vstd::prelude::*;

use std::collections::HashMap;

use crate::galley::{count_prefix, count_sum, lemma_count_prefix_push, line_m, spec_max_x, Galley, Line};
use crate::glyph::{GlyphInfo, UvRect, Vec2i};

verus! {

/// The character whose metrics are substituted for any code point the
/// font cannot render. It must be resolvable at construction time.
pub const REPLACEMENT_CHAR: char = '?';

/// The non-breaking space: whitespace, but never a wrap candidate.
pub const NON_BREAKING_SPACE: char = '\u{A0}';

/// Upper bound on the number of characters one layout call accepts, so
/// that every accumulated coordinate stays exactly representable in
/// 64-bit arithmetic.
pub const MAX_TEXT_CHARS: usize = 0x1000_0000;

/// A step of the layout cursor never exceeds this many device pixels:
/// the largest advance plus the largest kerning adjustment.
pub const MAX_STEP: i64 = 0x2_0000_0000;

/// Whether a character is a candidate to wrap a line at: whitespace,
/// except the non-breaking space.
pub open spec fn spec_is_wrap_char(c: char) -> bool {
    let u = c as u32;
    ||| u == 0x20
    ||| (0x09 <= u && u <= 0x0D)
    ||| u == 0x85
    ||| u == 0x1680
    ||| (0x2000 <= u && u <= 0x200A)
    ||| u == 0x2028
    ||| u == 0x2029
    ||| u == 0x202F
    ||| u == 0x205F
    ||| u == 0x3000
}

/// Exec mirror of [`spec_is_wrap_char`].
pub fn is_wrap_char(c: char) -> (r: bool)
    ensures
        r == spec_is_wrap_char(c),
{
    let u = c as u32;
    u == 0x20 || (0x09 <= u && u <= 0x0D) || u == 0x85 || u == 0x1680 || (0x2000 <= u && u
        <= 0x200A) || u == 0x2028 || u == 0x2029 || u == 0x202F || u == 0x205F || u == 0x3000
}

/// Combines two glyph identifiers into one kerning-table key.
pub open spec fn spec_pair_key(prev_id: u32, id: u32) -> u64 {
    ((prev_id as u64) * 0x1_0000_0000 + (id as u64)) as u64
}

/// Exec mirror of [`spec_pair_key`].
pub fn pair_key(prev_id: u32, id: u32) -> (r: u64)
    ensures
        r == spec_pair_key(prev_id, id),
{
    (prev_id as u64) * 0x1_0000_0000 + (id as u64)
}

/// A font at one fixed scale: per-character metrics behind a
/// monotonically growing cache, a pair-kerning table, and the vertical
/// extent of one line. All units are whole device pixels.
///
/// The rasterizer that produces metrics for characters not yet cached
/// lives outside this library; its results enter through
/// [`Font::insert_glyph`] and [`Font::insert_kerning`], and everything
/// downstream of those results is computed here.
pub struct Font {
    glyphs: HashMap<u32, GlyphInfo>,
    kerning: HashMap<u64, i32>,
    replacement_glyph_info: GlyphInfo,
    height_in_pixels: u32,
}

impl Font {
    /// The glyph cache, keyed by character code point.
    pub closed spec fn glyphs_map(self) -> Map<u32, GlyphInfo> {
        self.glyphs@
    }

    /// The kerning table, keyed by [`spec_pair_key`] of adjacent glyph ids.
    pub closed spec fn kerning_map(self) -> Map<u64, i32> {
        self.kerning@
    }

    /// The pre-resolved metrics of [`REPLACEMENT_CHAR`].
    pub closed spec fn replacement(self) -> GlyphInfo {
        self.replacement_glyph_info
    }

    /// Height of one line, in whole device pixels.
    pub closed spec fn spec_height(self) -> u32 {
        self.height_in_pixels
    }

    pub open spec fn wf(self) -> bool {
        self.spec_height() >= 1
    }

    /// What any character resolves to: its cached metrics, or the
    /// replacement glyph's when it is not cached. Resolution never fails.
    pub open spec fn resolved(self, c: char) -> GlyphInfo {
        if self.glyphs_map().contains_key(c as u32) {
            self.glyphs_map()[c as u32]
        } else {
            self.replacement()
        }
    }

    /// The pair-kerning adjustment between two glyphs; zero for pairs
    /// the table does not mention.
    pub open spec fn kern_between(self, prev_id: u32, id: u32) -> int {
        if self.kerning_map().contains_key(spec_pair_key(prev_id, id)) {
            self.kerning_map()[spec_pair_key(prev_id, id)] as int
        } else {
            0
        }
    }

    /// A fresh font with the given line height and the pre-resolved
    /// metrics of the replacement character, which start out as the only
    /// cache entry. The caller is expected to warm the cache with the
    /// printable range it will lay out most.
    pub fn new(replacement_glyph_info: GlyphInfo, height_in_pixels: u32) -> (f: Font)
        requires
            height_in_pixels >= 1,
        ensures
            f.wf(),
            f.replacement() == replacement_glyph_info,
            f.spec_height() == height_in_pixels,
            f.glyphs_map() == Map::<u32, GlyphInfo>::empty().insert(
                REPLACEMENT_CHAR as u32,
                replacement_glyph_info,
            ),
            f.kerning_map() == Map::<u64, i32>::empty(),
    {
        let mut glyphs: HashMap<u32, GlyphInfo> = HashMap::new();
        glyphs.insert(REPLACEMENT_CHAR as u32, replacement_glyph_info);
        Font {
            glyphs,
            kerning: HashMap::new(),
            replacement_glyph_info,
            height_in_pixels,
        }
    }

    /// Metrics for `c`, always succeeding: a cache hit returns the
    /// cached copy, anything else the replacement glyph's metrics. A
    /// queried `'\n'` resolves like any other uncached character.
    pub fn glyph_info(&self, c: char) -> (r: GlyphInfo)
        ensures
            r == self.resolved(c),
    {
        match self.glyphs.get(&(c as u32)) {
            Some(gi) => *gi,
            None => self.replacement_glyph_info,
        }
    }

    /// Whether `c` already has a cache entry; when it does not, the
    /// caller should ask the rasterizer and record the outcome with
    /// [`Font::insert_glyph`].
    pub fn is_cached(&self, c: char) -> (r: bool)
        ensures
            r == self.glyphs_map().contains_key(c as u32),
    {
        self.glyphs.contains_key(&(c as u32))
    }

    /// Records the rasterizer's outcome for `c`: the allocated metrics,
    /// or the replacement glyph's when the font has no glyph for the
    /// character. The substitution is cached under the original
    /// character, so a repeated miss never re-attempts allocation.
    pub fn insert_glyph(&mut self, c: char, allocated: Option<GlyphInfo>) -> (r: GlyphInfo)
        ensures
            r == (match allocated {
                Some(g) => g,
                None => old(self).replacement(),
            }),
            final(self).glyphs_map() == old(self).glyphs_map().insert(c as u32, r),
            final(self).resolved(c) == r,
            final(self).kerning_map() == old(self).kerning_map(),
            final(self).replacement() == old(self).replacement(),
            final(self).spec_height() == old(self).spec_height(),
    {
        let gi = match allocated {
            Some(g) => g,
            None => self.replacement_glyph_info,
        };
        self.glyphs.insert(c as u32, gi);
        gi
    }

    /// Records the pair-kerning adjustment between two glyphs.
    pub fn insert_kerning(&mut self, prev_id: u32, id: u32, adjust: i32)
        ensures
            final(self).kerning_map() == old(self).kerning_map().insert(
                spec_pair_key(prev_id, id),
                adjust,
            ),
            final(self).kern_between(prev_id, id) == adjust as int,
            final(self).glyphs_map() == old(self).glyphs_map(),
            final(self).replacement() == old(self).replacement(),
            final(self).spec_height() == old(self).spec_height(),
    {
        let key = pair_key(prev_id, id);
        self.kerning.insert(key, adjust);
    }

    /// The recorded kerning adjustment between two glyphs, zero when
    /// the pair is unknown.
    pub fn kerning_adjustment(&self, prev_id: u32, id: u32) -> (r: i32)
        ensures
            r as int == self.kern_between(prev_id, id),
    {
        let key = pair_key(prev_id, id);
        match self.kerning.get(&key) {
            Some(k) => *k,
            None => 0,
        }
    }

    /// Height of one line of text, in whole device pixels.
    pub fn line_spacing(&self) -> (r: u32)
        ensures
            r == self.spec_height(),
    {
        self.height_in_pixels
    }

    /// Same as [`Font::line_spacing`]: the vertical extent of one line.
    pub fn height(&self) -> (r: u32)
        ensures
            r == self.spec_height(),
    {
        self.height_in_pixels
    }

    /// Texture coordinates of `c` if it is cached and has visible
    /// pixels; a plain cache read that never substitutes.
    pub fn uv_rect(&self, c: char) -> (r: Option<UvRect>)
        ensures
            r == (if self.glyphs_map().contains_key(c as u32) {
                self.glyphs_map()[c as u32].uv_rect
            } else {
                None::<UvRect>
            }),
    {
        match self.glyphs.get(&(c as u32)) {
            Some(gi) => gi.uv_rect,
            None => None,
        }
    }

    /// The glyph id the cursor last advanced over, before laying out
    /// the character at `i` of `text`; none at the start of a fragment.
    pub open spec fn spec_prev_id(self, text: Seq<char>, i: int) -> Option<u32> {
        if i <= 0 {
            None
        } else {
            Some(self.resolved(text[i - 1]).id)
        }
    }

    /// The pixel step the cursor makes for `c` when the previous glyph
    /// was `prev_id`: the pair-kerning adjustment plus the advance. A
    /// pathological adjustment larger than the advance would pull the
    /// cursor before the previous offset and break the non-decreasing
    /// offsets invariant, so the step is clamped at zero.
    pub open spec fn spec_step(self, prev_id: Option<u32>, c: char) -> int {
        let g = self.resolved(c);
        let k = match prev_id {
            Some(p) => self.kern_between(p, g.id),
            None => 0,
        };
        let s = g.advance_width as int + k;
        if s >= 0 {
            s
        } else {
            0
        }
    }

    /// The boundary offsets of `text` typeset on one line: entry 0 is
    /// zero, and entry `i + 1` adds the step for the character at `i`.
    pub open spec fn spec_offsets(self, text: Seq<char>) -> Seq<int>
        decreases text.len(),
    {
        if text.len() == 0 {
            seq![0int]
        } else {
            let prefix = self.spec_offsets(text.drop_last());
            prefix.push(
                prefix.last() + self.spec_step(
                    self.spec_prev_id(text, text.len() - 1),
                    text[text.len() - 1],
                ),
            )
        }
    }

    /// Offsets are one longer than the text, anchored at zero,
    /// non-decreasing, and each stays under `MAX_STEP` pixels per
    /// character laid out so far.
    pub proof fn lemma_offsets_shape(self, text: Seq<char>)
        ensures
            self.spec_offsets(text).len() == text.len() + 1,
            self.spec_offsets(text)[0] == 0,
            forall|j: int|
                0 <= j < text.len() ==> #[trigger] self.spec_offsets(text)[j] <= self.spec_offsets(
                    text,
                )[j + 1],
            forall|j: int|
                0 <= j <= text.len() ==> 0 <= #[trigger] self.spec_offsets(text)[j] <= j * MAX_STEP,
        decreases text.len(),
    {
        if text.len() > 0 {
            self.lemma_offsets_shape(text.drop_last());
        }
    }

    /// Typesets `text` onto one line: resolves each character, adds the
    /// pair-kerning adjustment and the advance, and records every
    /// boundary. Returns one offset more than there are characters,
    /// starting at zero. A `'\n'` in `text` is typeset like any other
    /// uncached character, as the replacement glyph.
    pub fn layout_single_line_fragment(&self, text: &Vec<char>) -> (r: Vec<i64>)
        requires
            text@.len() <= MAX_TEXT_CHARS,
        ensures
            r@.len() == text@.len() + 1,
            r@.map_values(|v: i64| v as int) == self.spec_offsets(text@),
    {
        let n = text.len();
        let mut x_offsets: Vec<i64> = Vec::new();
        x_offsets.push(0);
        let mut cursor: i64 = 0;
        let mut last_glyph_id: Option<u32> = None;
        let mut i: usize = 0;
        proof {
            assert(x_offsets@.map_values(|v: i64| v as int) =~= self.spec_offsets(text@.take(0)));
        }
        while i < n
            invariant
                n == text@.len(),
                n <= MAX_TEXT_CHARS,
                i <= n,
                x_offsets@.len() == i + 1,
                x_offsets@.map_values(|v: i64| v as int) == self.spec_offsets(
                    text@.take(i as int),
                ),
                cursor == x_offsets@[i as int],
                0 <= cursor <= i * MAX_STEP,
                last_glyph_id == self.spec_prev_id(text@, i as int),
            decreases n - i,
        {
            let c = text[i];
            let glyph = self.glyph_info(c);
            let k: i64 = match last_glyph_id {
                Some(p) => self.kerning_adjustment(p, glyph.id) as i64,
                None => 0,
            };
            let sum: i64 = glyph.advance_width as i64 + k;
            let step: i64 = if sum > 0 {
                sum
            } else {
                0
            };
            proof {
                assert(step == self.spec_step(self.spec_prev_id(text@, i as int), text@[i as int]));
            }
            cursor = cursor + step;
            x_offsets.push(cursor);
            last_glyph_id = Some(glyph.id);
            proof {
                let t1 = text@.take(i as int + 1);
                assert(t1.drop_last() =~= text@.take(i as int));
                assert(t1[t1.len() - 1] == text@[i as int]);
                assert(self.spec_prev_id(t1, i as int) == self.spec_prev_id(text@, i as int));
                assert(x_offsets@.map_values(|v: i64| v as int) =~= self.spec_offsets(t1));
            }
            i += 1;
        }
        proof {
            assert(text@.take(n as int) =~= text@);
        }
        x_offsets
    }
}

/// The starts of the second and later lines produced by scanning a
/// paragraph left to right from character `i`: `line_start` is where
/// the current line began, `last_space` the most recent wrap candidate
/// on it. When the width since `line_start` exceeds `max` and a
/// candidate exists, the line is cut just after the candidate — the
/// trailing whitespace stays on the completed line — and the candidate
/// is cleared. A run with no candidate is never cut, however wide.
pub open spec fn wrap_scan(
    xs: Seq<int>,
    ws: Seq<bool>,
    max: int,
    i: int,
    line_start: int,
    last_space: Option<int>,
) -> Seq<int>
    decreases ws.len() - i,
{
    if i < 0 || i >= ws.len() {
        Seq::empty()
    } else {
        match last_space {
            Some(s) => if xs[i + 1] - xs[line_start] > max {
                let b = s + 1;
                seq![b] + wrap_scan(
                    xs,
                    ws,
                    max,
                    i + 1,
                    b,
                    if ws[i] {
                        Some(i)
                    } else {
                        None
                    },
                )
            } else {
                wrap_scan(
                    xs,
                    ws,
                    max,
                    i + 1,
                    line_start,
                    if ws[i] {
                        Some(i)
                    } else {
                        last_space
                    },
                )
            },
            None => wrap_scan(
                xs,
                ws,
                max,
                i + 1,
                line_start,
                if ws[i] {
                    Some(i)
                } else {
                    last_space
                },
            ),
        }
    }
}

/// Index of the first line break at or after `i`, or the text length
/// when none follows.
pub open spec fn first_newline(text: Seq<char>, i: int) -> int
    decreases text.len() - i,
{
    if i < 0 || i >= text.len() {
        text.len() as int
    } else if text[i] == '\n' {
        i
    } else {
        first_newline(text, i + 1)
    }
}

pub proof fn lemma_first_newline_bounds(text: Seq<char>, i: int)
    requires
        0 <= i <= text.len(),
    ensures
        i <= first_newline(text, i) <= text.len(),
        first_newline(text, i) < text.len() ==> text[first_newline(text, i)] == '\n',
    decreases text.len() - i,
{
    if i < text.len() && text[i] != '\n' {
        lemma_first_newline_bounds(text, i + 1);
    }
}

/// Dropping a prefix shifts the position of the first break by the
/// prefix length.
pub proof fn lemma_first_newline_skip(text: Seq<char>, ps: int, i: int)
    requires
        0 <= ps <= i <= text.len(),
    ensures
        first_newline(text.skip(ps), i - ps) == first_newline(text, i) - ps,
    decreases text.len() - i,
{
    if i >= text.len() {
    } else {
        assert(text.skip(ps)[i - ps] == text[i]);
        if text[i] != '\n' {
            lemma_first_newline_skip(text, ps, i + 1);
        }
    }
}

/// The paragraphs of `text`: the maximal runs between line breaks,
/// with the breaks themselves excluded. There is one more paragraph
/// than there are breaks; empty text has one empty paragraph.
pub open spec fn spec_paragraphs(text: Seq<char>) -> Seq<Seq<char>>
    decreases text.len(),
{
    let k = first_newline(text, 0);
    if 0 <= k && k < text.len() {
        seq![text.take(k)] + spec_paragraphs(text.skip(k + 1))
    } else {
        seq![text]
    }
}

/// Splitting off the text before `ps` leaves the paragraph up to the
/// next break, followed by the paragraphs of what comes after it.
pub proof fn lemma_paragraphs_decompose(text: Seq<char>, ps: int)
    requires
        0 <= ps <= text.len(),
    ensures
        ({
            let k = first_newline(text, ps);
            &&& ps <= k <= text.len()
            &&& spec_paragraphs(text.skip(ps)) == seq![text.subrange(ps, k)] + (if k
                < text.len() {
                spec_paragraphs(text.skip(k + 1))
            } else {
                Seq::<Seq<char>>::empty()
            })
        }),
{
    let k = first_newline(text, ps);
    lemma_first_newline_bounds(text, ps);
    lemma_first_newline_skip(text, ps, ps);
    let rest = text.skip(ps);
    assert(first_newline(rest, 0) == k - ps);
    if k < text.len() {
        assert(rest.take(k - ps) =~= text.subrange(ps, k));
        assert(rest.skip(k - ps + 1) =~= text.skip(k + 1));
        assert(spec_paragraphs(rest) == seq![rest.take(k - ps)] + spec_paragraphs(
            rest.skip(k - ps + 1),
        ));
        assert(spec_paragraphs(rest) =~= seq![text.subrange(ps, k)] + spec_paragraphs(
            text.skip(k + 1),
        ));
    } else {
        assert(rest =~= text.subrange(ps, k));
        assert(spec_paragraphs(rest) == seq![rest]);
        assert(spec_paragraphs(rest) =~= seq![text.subrange(ps, k)] + Seq::<Seq<char>>::empty());
    }
}

/// One unfolding step of [`wrap_scan`] at a character inside the text.
pub proof fn lemma_wrap_scan_step(
    xs: Seq<int>,
    ws: Seq<bool>,
    max: int,
    i: int,
    line_start: int,
    last_space: Option<int>,
)
    requires
        0 <= i < ws.len(),
    ensures
        wrap_scan(xs, ws, max, i, line_start, last_space) == (match last_space {
            Some(s) => if xs[i + 1] - xs[line_start] > max {
                seq![s + 1] + wrap_scan(
                    xs,
                    ws,
                    max,
                    i + 1,
                    s + 1,
                    if ws[i] {
                        Some(i)
                    } else {
                        None
                    },
                )
            } else {
                wrap_scan(
                    xs,
                    ws,
                    max,
                    i + 1,
                    line_start,
                    if ws[i] {
                        Some(i)
                    } else {
                        last_space
                    },
                )
            },
            None => wrap_scan(
                xs,
                ws,
                max,
                i + 1,
                line_start,
                if ws[i] {
                    Some(i)
                } else {
                    last_space
                },
            ),
        }),
{
}

/// The cut points are strictly increasing, lie strictly between the
/// current line start and the paragraph end, and there are at most as
/// many as there are characters left to scan.
pub proof fn lemma_wrap_scan_props(
    xs: Seq<int>,
    ws: Seq<bool>,
    max: int,
    i: int,
    line_start: int,
    last_space: Option<int>,
)
    requires
        0 <= i <= ws.len(),
        0 <= line_start <= i,
        (match last_space {
            Some(s) => line_start <= s < i,
            None => true,
        }),
    ensures
        ({
            let r = wrap_scan(xs, ws, max, i, line_start, last_space);
            &&& r.len() <= ws.len() - i
            &&& forall|k: int| 0 <= k < r.len() ==> line_start < #[trigger] r[k] < ws.len()
            &&& forall|k: int| 0 <= k < r.len() - 1 ==> #[trigger] r[k] < r[k + 1]
        }),
    decreases ws.len() - i,
{
    if i >= ws.len() {
    } else {
        match last_space {
            Some(s) => {
                if xs[i + 1] - xs[line_start] > max {
                    let b = s + 1;
                    let ls2: Option<int> = if ws[i] {
                        Some(i)
                    } else {
                        None
                    };
                    lemma_wrap_scan_props(xs, ws, max, i + 1, b, ls2);
                    let rest = wrap_scan(xs, ws, max, i + 1, b, ls2);
                    let r = wrap_scan(xs, ws, max, i, line_start, last_space);
                    assert(r == seq![b] + rest);
                    assert forall|k: int| 0 <= k < r.len() - 1 implies #[trigger] r[k] < r[k
                        + 1] by {
                        if k == 0 {
                            assert(r[1] == rest[0]);
                        } else {
                            assert(r[k] == rest[k - 1]);
                            assert(r[k + 1] == rest[k]);
                        }
                    }
                } else {
                    lemma_wrap_scan_props(
                        xs,
                        ws,
                        max,
                        i + 1,
                        line_start,
                        if ws[i] {
                            Some(i)
                        } else {
                            last_space
                        },
                    );
                }
            },
            None => {
                lemma_wrap_scan_props(
                    xs,
                    ws,
                    max,
                    i + 1,
                    line_start,
                    if ws[i] {
                        Some(i)
                    } else {
                        last_space
                    },
                );
            },
        }
    }
}

impl Font {
    /// The wrap-candidate flag of each character of `text`.
    pub open spec fn spec_wrap_flags(self, text: Seq<char>) -> Seq<bool> {
        text.map_values(|c: char| spec_is_wrap_char(c))
    }

    /// The line boundaries of `text` wrapped at `max`: index 0, every
    /// cut point, and the text length.
    pub open spec fn spec_breaks(self, text: Seq<char>, max: int) -> Seq<int> {
        seq![0int] + wrap_scan(
            self.spec_offsets(text),
            self.spec_wrap_flags(text),
            max,
            0,
            0,
            None,
        ) + seq![text.len() as int]
    }

    /// How many lines `text` wraps into at `max`; an empty paragraph
    /// still yields one (empty) line.
    pub open spec fn spec_wrap_count(self, text: Seq<char>, max: int) -> int {
        self.spec_breaks(text, max).len() - 1
    }

    /// Line `k` of `text` wrapped at `max`: the boundary offsets of its
    /// character range rebased to start at zero, stacked `k` line
    /// heights down, with no break flag.
    pub open spec fn spec_wrap_line(self, text: Seq<char>, max: int, k: int) -> (
        Seq<int>,
        int,
        int,
        bool,
    ) {
        let xs = self.spec_offsets(text);
        let bs = self.spec_breaks(text, max);
        let s = bs[k];
        let e = bs[k + 1];
        let h = self.spec_height() as int;
        (Seq::new((e - s + 1) as nat, |j: int| xs[s + j] - xs[s]), k * h, k * h + h, false)
    }

    /// The boundaries partition the paragraph: they start at zero, end
    /// at its length, and strictly increase in between (except for the
    /// empty paragraph, whose two boundaries coincide).
    pub proof fn lemma_breaks_props(self, text: Seq<char>, max: int)
        ensures
            ({
                let bs = self.spec_breaks(text, max);
                &&& 2 <= bs.len() <= text.len() + 2
                &&& bs[0] == 0
                &&& bs[bs.len() - 1] == text.len()
                &&& forall|k: int| 0 <= k < bs.len() - 1 ==> #[trigger] bs[k] <= bs[k + 1]
                &&& forall|k: int| 0 <= k < bs.len() ==> 0 <= #[trigger] bs[k] <= text.len()
                &&& text.len() > 0 ==> forall|k: int|
                    0 <= k < bs.len() - 1 ==> #[trigger] bs[k] < bs[k + 1]
            }),
    {
        let ws = self.spec_wrap_flags(text);
        let mid = wrap_scan(self.spec_offsets(text), ws, max, 0, 0, None);
        lemma_wrap_scan_props(self.spec_offsets(text), ws, max, 0, 0, None);
        let bs = self.spec_breaks(text, max);
        assert(bs.len() == mid.len() + 2);
        assert(forall|k: int| 0 <= k < mid.len() ==> bs[k + 1] == mid[k]);
        assert(bs[0] == 0);
        assert(bs[bs.len() - 1] == text.len());
    }

    /// Scans a paragraph left to right and collects the greedy cut
    /// points: a cut falls just after the most recent wrap candidate
    /// once the width since the current line start exceeds the maximum.
    #[verifier::rlimit(30)]
    fn wrap_cut_points(&self, text: &Vec<char>, full_x_offsets: &Vec<i64>, max: i64) -> (r: Vec<
        usize,
    >)
        requires
            text@.len() <= MAX_TEXT_CHARS,
            full_x_offsets@.len() == text@.len() + 1,
            full_x_offsets@.map_values(|v: i64| v as int) == self.spec_offsets(text@),
        ensures
            r@.map_values(|b: usize| b as int) == wrap_scan(
                self.spec_offsets(text@),
                self.spec_wrap_flags(text@),
                max as int,
                0,
                0,
                None,
            ),
    {
        let ghost xs = self.spec_offsets(text@);
        let ghost ws = self.spec_wrap_flags(text@);
        let ghost maxi = max as int;
        let n = text.len();
        proof {
            self.lemma_offsets_shape(text@);
        }
        let mut breaks: Vec<usize> = Vec::new();
        let mut line_start: usize = 0;
        let mut last_space: Option<usize> = None;
        let mut i: usize = 0;
        proof {
            assert(breaks@.map_values(|b: usize| b as int) =~= Seq::<int>::empty());
        }
        while i < n
            invariant
                n == text@.len(),
                n <= MAX_TEXT_CHARS,
                xs == self.spec_offsets(text@),
                ws == self.spec_wrap_flags(text@),
                maxi == max as int,
                ws.len() == n,
                xs.len() == n + 1,
                full_x_offsets@.len() == n + 1,
                full_x_offsets@.map_values(|v: i64| v as int) == xs,
                forall|j: int| 0 <= j <= n ==> 0 <= #[trigger] xs[j] <= j * MAX_STEP,
                i <= n,
                line_start <= i,
                (match last_space {
                    Some(s) => line_start <= s < i,
                    None => true,
                }),
                wrap_scan(xs, ws, maxi, 0, 0, None) == breaks@.map_values(|b: usize| b as int)
                    + wrap_scan(
                    xs,
                    ws,
                    maxi,
                    i as int,
                    line_start as int,
                    (match last_space {
                        Some(s) => Some(s as int),
                        None => None::<int>,
                    }),
                ),
            decreases n - i,
        {
            let ghost pre_breaks = breaks@.map_values(|b: usize| b as int);
            let ghost pre_ls: int = line_start as int;
            let ghost pre_lsp: Option<int> = (match last_space {
                Some(s) => Some(s as int),
                None => None::<int>,
            });
            proof {
                assert(xs[i as int + 1] == full_x_offsets@[i as int + 1] as int);
                assert(xs[line_start as int] == full_x_offsets@[line_start as int] as int);
                assert(ws[i as int] == spec_is_wrap_char(text@[i as int]));
                lemma_wrap_scan_step(xs, ws, maxi, i as int, pre_ls, pre_lsp);
            }
            let wc = is_wrap_char(text[i]);
            let xa: i64 = full_x_offsets[i + 1];
            let xb: i64 = full_x_offsets[line_start];
            proof {
                assert(xa as int == xs[i as int + 1]);
                assert(xb as int == xs[line_start as int]);
            }
            let over = xa - xb > max;
            proof {
                assert(over == (xs[i as int + 1] - xs[line_start as int] > maxi));
            }
            match last_space {
                Some(ls) if over => {
                    let b = ls + 1;
                    breaks.push(b);
                    line_start = b;
                    last_space = if wc {
                        Some(i)
                    } else {
                        None
                    };
                    proof {
                        assert(breaks@.map_values(|b2: usize| b2 as int) =~= pre_breaks + seq![
                            b as int,
                        ]);
                        let post_lsp: Option<int> = if ws[i as int] {
                            Some(i as int)
                        } else {
                            None
                        };
                        let rest = wrap_scan(xs, ws, maxi, i as int + 1, b as int, post_lsp);
                        assert(wrap_scan(xs, ws, maxi, i as int, pre_ls, pre_lsp) == seq![b as int]
                            + rest);
                        assert(pre_breaks + (seq![b as int] + rest) =~= (pre_breaks + seq![
                            b as int,
                        ]) + rest);
                    }
                },
                _ => {
                    last_space = if wc {
                        Some(i)
                    } else {
                        last_space
                    };
                    proof {
                        let post_lsp: Option<int> = if ws[i as int] {
                            Some(i as int)
                        } else {
                            pre_lsp
                        };
                        assert(wrap_scan(xs, ws, maxi, i as int, pre_ls, pre_lsp) == wrap_scan(
                            xs,
                            ws,
                            maxi,
                            i as int + 1,
                            pre_ls,
                            post_lsp,
                        ));
                    }
                },
            }
            i += 1;
        }
        proof {
            assert(wrap_scan(xs, ws, maxi, n as int, line_start as int, (match last_space {
                Some(s) => Some(s as int),
                None => None::<int>,
            })) =~= Seq::<int>::empty());
            assert(wrap_scan(xs, ws, maxi, 0, 0, None) =~= breaks@.map_values(
                |b: usize| b as int,
            ));
        }
        breaks
    }

    /// A paragraph is text with no line-break character in it. Wraps it
    /// greedily at `max_width_in_pixels`: a line is cut just after the
    /// most recent breakable whitespace once the running width exceeds
    /// the maximum, so the trailing whitespace stays on the completed
    /// line; a run with no wrap candidate is allowed to exceed the
    /// maximum rather than be broken mid-word. An empty paragraph
    /// yields one line holding only the zero offset. No line carries a
    /// break flag; the caller sets the last one's when the paragraph
    /// was terminated by a break.
    #[verifier::rlimit(30)]
    pub fn layout_paragraph_max_width(&self, text: &Vec<char>, max_width_in_pixels: i64) -> (r:
        Vec<Line>)
        requires
            text@.len() <= MAX_TEXT_CHARS,
        ensures
            r@.len() == self.spec_wrap_count(text@, max_width_in_pixels as int),
            1 <= r@.len() <= text@.len() + 1,
            forall|k: int|
                0 <= k < r@.len() ==> line_m(#[trigger] r@[k]) == self.spec_wrap_line(
                    text@,
                    max_width_in_pixels as int,
                    k,
                ),
            forall|k: int| 0 <= k < r@.len() ==> (#[trigger] r@[k]).wf(),
            forall|k: int| 0 <= k < r@.len() ==> !(#[trigger] r@[k]).ends_with_newline,
            count_sum(r@) == text@.len(),
    {
        let ghost maxi = max_width_in_pixels as int;
        let n = text.len();
        let full_x_offsets = self.layout_single_line_fragment(text);
        let ghost xs = self.spec_offsets(text@);
        proof {
            self.lemma_offsets_shape(text@);
            self.lemma_breaks_props(text@, maxi);
        }
        let breaks = self.wrap_cut_points(text, &full_x_offsets, max_width_in_pixels);
        // Materialize the full line boundaries: zero, the cuts, the end.
        let ghost bs = self.spec_breaks(text@, maxi);
        let mut bounds: Vec<usize> = Vec::new();
        bounds.push(0);
        let mut t: usize = 0;
        while t < breaks.len()
            invariant
                t <= breaks@.len(),
                bounds@ == seq![0usize] + breaks@.take(t as int),
            decreases breaks@.len() - t,
        {
            bounds.push(breaks[t]);
            proof {
                assert(bounds@ =~= seq![0usize] + breaks@.take(t as int + 1));
            }
            t += 1;
        }
        bounds.push(n);
        proof {
            assert(breaks@.take(breaks@.len() as int) =~= breaks@);
            assert(bounds@.map_values(|b: usize| b as int) =~= bs);
        }
        // Slice the offsets into lines at the boundaries.
        let m = bounds.len() - 1;
        let mut out_lines: Vec<Line> = Vec::new();
        let mut k: usize = 0;
        while k < m
            invariant
                n == text@.len(),
                n <= MAX_TEXT_CHARS,
                xs == self.spec_offsets(text@),
                bs == self.spec_breaks(text@, maxi),
                maxi == max_width_in_pixels as int,
                full_x_offsets@.len() == n + 1,
                full_x_offsets@.map_values(|v: i64| v as int) == xs,
                forall|j: int| 0 <= j <= n ==> 0 <= #[trigger] xs[j] <= j * MAX_STEP,
                forall|j: int| 0 <= j < n ==> #[trigger] xs[j] <= xs[j + 1],
                bounds@.map_values(|b: usize| b as int) == bs,
                m + 1 == bounds@.len(),
                m == bs.len() - 1,
                k <= m,
                out_lines@.len() == k,
                forall|q: int|
                    0 <= q < k ==> line_m(#[trigger] out_lines@[q]) == self.spec_wrap_line(
                        text@,
                        maxi,
                        q,
                    ),
                forall|q: int| 0 <= q < k ==> (#[trigger] out_lines@[q]).wf(),
                forall|q: int| 0 <= q < k ==> !(#[trigger] out_lines@[q]).ends_with_newline,
                count_prefix(out_lines@, k as int) == bs[k as int],
            decreases m - k,
        {
            proof {
                self.lemma_breaks_props(text@, maxi);
                assert(bs[k as int] == bounds@[k as int] as int);
                assert(bs[k as int + 1] == bounds@[k as int + 1] as int);
            }
            let s = bounds[k];
            let e = bounds[k + 1];
            let base = full_x_offsets[s];
            proof {
                assert(xs[s as int] == full_x_offsets@[s as int] as int);
            }
            let mut lxs: Vec<i64> = Vec::new();
            let mut j: usize = s;
            while j <= e
                invariant
                    n <= MAX_TEXT_CHARS,
                    s <= j <= e + 1,
                    e <= n,
                    full_x_offsets@.len() == n + 1,
                    full_x_offsets@.map_values(|v: i64| v as int) == xs,
                    forall|q: int| 0 <= q <= n ==> 0 <= #[trigger] xs[q] <= q * MAX_STEP,
                    base as int == xs[s as int],
                    lxs@.len() == j - s,
                    forall|q: int|
                        0 <= q < j - s ==> #[trigger] lxs@[q] as int == xs[s as int + q] - xs[
                            s as int
                        ],
                decreases e + 1 - j,
            {
                proof {
                    assert(xs[j as int] == full_x_offsets@[j as int] as int);
                }
                lxs.push(full_x_offsets[j] - base);
                j += 1;
            }
            let h = self.height();
            proof {
                assert((k as int) * (h as int) + (h as int) <= 0x20000000int * 0x1_0000_0000int)
                    by (nonlinear_arith)
                    requires
                        0 <= k as int <= 0x10000001int,
                        0 <= h as int <= 0xFFFF_FFFFint,
                ;
            }
            let y_min = (k as i64) * (h as i64);
            let line = Line {
                x_offsets: lxs,
                y_min,
                y_max: y_min + h as i64,
                ends_with_newline: false,
            };
            proof {
                let lm = self.spec_wrap_line(text@, maxi, k as int);
                assert(line_m(line).0 =~= Seq::new(
                    (bs[k as int + 1] - bs[k as int] + 1) as nat,
                    |q: int| xs[bs[k as int] + q] - xs[bs[k as int]],
                ));
                assert(line_m(line) == lm);
                assert(line.x_offsets@[0] == 0);
                assert forall|q: int| 0 <= q < line.x_offsets@.len() - 1 implies #[trigger] line
                    .x_offsets@[q] <= line.x_offsets@[q + 1] by {
                    assert(xs[s as int + q] <= xs[s as int + q + 1]);
                }
                assert(line.wf());
                lemma_count_prefix_push(out_lines@, line, k as int);
                assert(count_prefix(out_lines@.push(line), k as int + 1) == bs[k as int]
                    + line.spec_count_incl());
            }
            out_lines.push(line);
            k += 1;
        }
        proof {
            self.lemma_breaks_props(text@, maxi);
            assert(count_sum(out_lines@) == bs[m as int]);
        }
        out_lines
    }

    /// The vertical gap inserted after each paragraph: two fifths of
    /// the line spacing, rounded down to a whole pixel.
    pub open spec fn spec_paragraph_gap(self) -> int {
        2 * (self.spec_height() as int) / 5
    }

    /// The lines of a run of paragraphs laid out from `y0` downwards:
    /// each paragraph is wrapped at `max`, its last line is flagged
    /// with the break that separated it from the next paragraph, and
    /// the cursor advances past its lines plus the paragraph gap. The
    /// last paragraph's last line is never flagged.
    pub open spec fn spec_multiline_rec(self, paras: Seq<Seq<char>>, max: int, y0: int) -> Seq<
        (Seq<int>, int, int, bool),
    >
        decreases paras.len(),
    {
        if paras.len() == 0 {
            Seq::empty()
        } else {
            let p = paras[0];
            let cnt = self.spec_wrap_count(p, max);
            let last_para = paras.len() == 1;
            let cur = Seq::new(
                cnt as nat,
                |k: int|
                    {
                        let lm = self.spec_wrap_line(p, max, k);
                        (lm.0, lm.1 + y0, lm.2 + y0, !last_para && k == cnt - 1)
                    },
            );
            cur + self.spec_multiline_rec(
                paras.drop_first(),
                max,
                y0 + cnt * (self.spec_height() as int) + self.spec_paragraph_gap(),
            )
        }
    }

    /// Typesets `text` onto exactly one line spanning the font height,
    /// with no break flag; a `'\n'` shows up as the replacement glyph.
    /// The galley is as wide as the line's right edge.
    pub fn layout_single_line(&self, text: Vec<char>) -> (g: Galley)
        requires
            text@.len() <= MAX_TEXT_CHARS,
        ensures
            g.wf(),
            g.text@ == text@,
            g.lines@.len() == 1,
            line_m(g.lines@[0]) == (self.spec_offsets(text@), 0int, self.spec_height() as int,
            false),
            g.size.x as int == self.spec_offsets(text@).last(),
            g.size.y as int == self.spec_height() as int,
    {
        let x_offsets = self.layout_single_line_fragment(&text);
        let height = self.height();
        let line = Line { x_offsets, y_min: 0, y_max: height as i64, ends_with_newline: false };
        proof {
            self.lemma_offsets_shape(text@);
            assert forall|j: int| 0 <= j < line.x_offsets@.len() - 1 implies #[trigger] line
                .x_offsets@[j] <= line.x_offsets@[j + 1] by {
                assert(line.x_offsets@[j] as int == self.spec_offsets(text@)[j]);
                assert(line.x_offsets@[j + 1] as int == self.spec_offsets(text@)[j + 1]);
            }
            assert(line.x_offsets@[0] as int == self.spec_offsets(text@)[0]);
            assert(line.wf());
        }
        let width = line.max_x();
        let mut lines: Vec<Line> = Vec::new();
        lines.push(line);
        proof {
            assert(count_prefix(lines@, 1) == count_prefix(lines@, 0) + lines@[0].spec_count_incl());
            assert(count_sum(lines@) == text@.len());
        }
        Galley { text, lines, size: Vec2i { x: width, y: height as i64 } }
    }

    /// An exact copy of a line's offsets.
    fn copy_offsets(v: &Vec<i64>) -> (r: Vec<i64>)
        ensures
            r@ == v@,
    {
        let n = v.len();
        let mut r: Vec<i64> = Vec::new();
        let mut i: usize = 0;
        while i < n
            invariant
                n == v@.len(),
                i <= n,
                r@ == v@.take(i as int),
            decreases n - i,
        {
            r.push(v[i]);
            proof {
                assert(r@ =~= v@.take(i as int + 1));
            }
            i += 1;
        }
        proof {
            assert(v@.take(n as int) =~= v@);
        }
        r
    }

    /// Splits `text` into paragraphs at each `'\n'` (the break itself
    /// belongs to no paragraph), wraps each at the maximum width, marks
    /// the last line of every paragraph but the final one as ending
    /// with a break, and stacks everything vertically with an extra
    /// gap between paragraphs. Empty text, or text ending in a break,
    /// gets one final empty line, so the last line of a galley never
    /// ends with a break. The galley is as wide as its widest line and
    /// as tall as its last line's bottom.
    #[verifier::rlimit(60)]
    pub fn layout_multiline(&self, text: Vec<char>, max_width_in_pixels: i64) -> (g: Galley)
        requires
            text@.len() <= MAX_TEXT_CHARS,
        ensures
            g.wf(),
            g.text@ == text@,
            g.lines@.len() >= 1,
            g.lines@.map_values(|l: Line| line_m(l)) == self.spec_multiline_rec(
                spec_paragraphs(text@),
                max_width_in_pixels as int,
                0,
            ),
            g.size.x as int == spec_max_x(g.lines@),
            g.size.y as int == g.lines@[g.lines@.len() - 1].y_max as int,
    {
        let n = text.len();
        let h = self.height();
        let h64: i64 = h as i64;
        let gap: i64 = 2 * h64 / 5;
        let ghost maxw = max_width_in_pixels as int;
        let mut lines: Vec<Line> = Vec::new();
        let mut cursor_y: i64 = 0;
        let mut paragraph_start: usize = 0;
        let ghost mut rem: Seq<Seq<char>> = spec_paragraphs(text@);
        proof {
            assert(lines@.map_values(|l: Line| line_m(l)) =~= Seq::<(Seq<int>, int, int, bool)>::empty());
            assert(text@.skip(0) =~= text@);
        }
        while paragraph_start < n
            invariant
                n == text@.len(),
                n <= MAX_TEXT_CHARS,
                h == self.spec_height(),
                h64 == h as i64,
                gap as int == self.spec_paragraph_gap(),
                maxw == max_width_in_pixels as int,
                paragraph_start <= n + 1,
                0 <= cursor_y,
                cursor_y as int <= (2 * paragraph_start as int + 2) * (h as int),
                (paragraph_start <= n ==> rem == spec_paragraphs(
                    text@.skip(paragraph_start as int),
                )),
                (paragraph_start > n ==> rem == Seq::<Seq<char>>::empty()),
                self.spec_multiline_rec(spec_paragraphs(text@), maxw, 0) == lines@.map_values(
                    |l: Line| line_m(l),
                ) + self.spec_multiline_rec(rem, maxw, cursor_y as int),
                forall|q: int| 0 <= q < lines@.len() ==> (#[trigger] lines@[q]).wf(),
                count_sum(lines@) == (if paragraph_start <= n {
                    paragraph_start as int
                } else {
                    n as int
                }),
                (paragraph_start > n ==> lines@.len() > 0 && !lines@[lines@.len()
                    - 1].ends_with_newline),
            decreases n + 1 - paragraph_start,
        {
            // Find the end of this paragraph: the next break, or the end.
            let mut pe: usize = paragraph_start;
            while pe < n && text[pe] != '\n'
                invariant
                    n == text@.len(),
                    paragraph_start <= pe <= n,
                    first_newline(text@, paragraph_start as int) == first_newline(
                        text@,
                        pe as int,
                    ),
                decreases n - pe,
            {
                pe += 1;
            }
            proof {
                lemma_first_newline_bounds(text@, paragraph_start as int);
                assert(first_newline(text@, paragraph_start as int) == pe as int);
                lemma_paragraphs_decompose(text@, paragraph_start as int);
            }
            // Copy the paragraph text, break excluded.
            let mut para: Vec<char> = Vec::new();
            let mut j: usize = paragraph_start;
            while j < pe
                invariant
                    n == text@.len(),
                    paragraph_start <= j <= pe <= n,
                    para@ == text@.subrange(paragraph_start as int, j as int),
                decreases pe - j,
            {
                para.push(text[j]);
                proof {
                    assert(para@ =~= text@.subrange(paragraph_start as int, j as int + 1));
                }
                j += 1;
            }
            let has_newline = pe < n;
            let para_lines = self.layout_paragraph_max_width(&para, max_width_in_pixels);
            let m = para_lines.len();
            let ghost base_model = lines@.map_values(|l: Line| line_m(l));
            let ghost base_count = count_sum(lines@);
            let ghost y0 = cursor_y as int;
            let ghost cnt = self.spec_wrap_count(para@, maxw);
            let ghost cur_model = Seq::new(
                cnt as nat,
                |k: int|
                    {
                        let lm = self.spec_wrap_line(para@, maxw, k);
                        (lm.0, lm.1 + y0, lm.2 + y0, has_newline && k == cnt - 1)
                    },
            );
            proof {
                assert(rem.len() >= 1);
                assert(rem[0] == para@);
                assert((rem.len() == 1) == !has_newline);
                assert((2 * paragraph_start as int + 2) * (h as int) <= (2 * n as int + 2) * (
                h as int)) by (nonlinear_arith)
                    requires
                        0 <= h as int,
                        paragraph_start as int <= n as int,
                ;
            }
            // Stack this paragraph's lines below what came before, and
            // flag its last line when a break follows.
            let mut k: usize = 0;
            while k < m
                invariant
                    n <= MAX_TEXT_CHARS,
                    h == self.spec_height(),
                    maxw == max_width_in_pixels as int,
                    m == para_lines@.len(),
                    m == cnt,
                    cnt == self.spec_wrap_count(para@, maxw),
                    1 <= m <= para@.len() + 1,
                    para@.len() <= n,
                    forall|q: int|
                        0 <= q < m ==> line_m(#[trigger] para_lines@[q]) == self.spec_wrap_line(
                            para@,
                            maxw,
                            q,
                        ),
                    forall|q: int| 0 <= q < m ==> (#[trigger] para_lines@[q]).wf(),
                    forall|q: int| 0 <= q < m ==> !(#[trigger] para_lines@[q]).ends_with_newline,
                    count_sum(para_lines@) == para@.len(),
                    0 <= y0,
                    y0 == cursor_y as int,
                    y0 <= (2 * n as int + 2) * (h as int),
                    cur_model == Seq::new(
                        cnt as nat,
                        |q: int|
                            {
                                let lm = self.spec_wrap_line(para@, maxw, q);
                                (lm.0, lm.1 + y0, lm.2 + y0, has_newline && q == cnt - 1)
                            },
                    ),
                    k <= m,
                    lines@.len() == base_model.len() + k,
                    lines@.map_values(|l: Line| line_m(l)) == base_model + cur_model.take(k as int),
                    forall|q: int| 0 <= q < lines@.len() ==> (#[trigger] lines@[q]).wf(),
                    base_count == count_sum(lines@) - count_prefix(para_lines@, k as int) - (
                    if has_newline && k == m {
                        1int
                    } else {
                        0int
                    }),
                    (k > 0 ==> !lines@[lines@.len() - 1].ends_with_newline || (has_newline && k
                        == m)),
                decreases m - k,
            {
                let src = &para_lines[k];
                let flag = has_newline && k + 1 == m;
                proof {
                    assert(line_m(para_lines@[k as int]) == self.spec_wrap_line(
                        para@,
                        maxw,
                        k as int,
                    ));
                    assert(src.y_min as int == (k as int) * (h as int));
                    assert(src.y_max as int == (k as int) * (h as int) + h as int);
                    assert((k as int) * (h as int) + h as int <= (n as int + 1) * (h as int))
                        by (nonlinear_arith)
                        requires
                            0 <= k as int,
                            0 <= h as int,
                            k as int + 1 <= n as int + 1,
                    ;
                    assert((2 * n as int + 2) * (h as int) + (n as int + 1) * (h as int) <= (3 * n
                        as int + 3) * (h as int)) by (nonlinear_arith);
                    assert((3 * n as int + 3) * (h as int) <= 0x3000_0003int * 0x1_0000_0000int)
                        by (nonlinear_arith)
                        requires
                            0 <= n as int <= 0x1000_0000int,
                            0 <= h as int <= 0xFFFF_FFFFint,
                    ;
                }
                let line = Line {
                    x_offsets: Self::copy_offsets(&src.x_offsets),
                    y_min: src.y_min + cursor_y,
                    y_max: src.y_max + cursor_y,
                    ends_with_newline: flag,
                };
                proof {
                    assert(line_m(line).0 =~= line_m(para_lines@[k as int]).0);
                    assert(line_m(line) == cur_model[k as int]);
                    assert(line.wf());
                    assert(lines@.push(line).map_values(|l: Line| line_m(l)) =~= lines@.map_values(
                        |l: Line| line_m(l),
                    ).push(line_m(line)));
                    assert(base_model + cur_model.take(k as int + 1) =~= (base_model
                        + cur_model.take(k as int)).push(cur_model[k as int]));
                    assert(lines@.push(line).map_values(|l: Line| line_m(l)) =~= base_model
                        + cur_model.take(k as int + 1));
                    lemma_count_prefix_push(lines@, line, lines@.len() as int);
                    assert(line.spec_count_incl() == count_prefix(para_lines@, k as int + 1)
                        - count_prefix(para_lines@, k as int) + (if flag {
                        1int
                    } else {
                        0int
                    }));
                }
                lines.push(line);
                k += 1;
            }
            // Advance the cursor past this paragraph and the gap.
            proof {
                assert(cursor_y as int + (m as int) * (h as int) + gap as int <= (2 * (pe as int
                    + 1) + 2) * (h as int)) by (nonlinear_arith)
                    requires
                        0 <= cursor_y as int,
                        cursor_y as int <= (2 * paragraph_start as int + 2) * (h as int),
                        0 <= h as int,
                        gap as int <= h as int,
                        m as int <= para@.len() + 1,
                        para@.len() == pe as int - paragraph_start as int,
                        paragraph_start as int <= pe as int,
                ;
                assert((2 * (pe as int + 1) + 2) * (h as int) <= 0x2000_0004int * 0x1_0000_0000int)
                    by (nonlinear_arith)
                    requires
                        0 <= pe as int <= 0x1000_0000int,
                        0 <= h as int <= 0xFFFF_FFFFint,
                ;
            }
            cursor_y = cursor_y + (m as i64) * h64 + gap;
            paragraph_start = pe + 1;
            proof {
                let prev_rem = rem;
                rem = (if paragraph_start <= n {
                    spec_paragraphs(text@.skip(paragraph_start as int))
                } else {
                    Seq::<Seq<char>>::empty()
                });
                assert(prev_rem.drop_first() =~= rem);
                assert(self.spec_multiline_rec(prev_rem, maxw, y0) == cur_model
                    + self.spec_multiline_rec(rem, maxw, cursor_y as int));
                assert(cur_model.take(cnt as int) =~= cur_model);
                assert(base_model + (cur_model + self.spec_multiline_rec(
                    rem,
                    maxw,
                    cursor_y as int,
                )) =~= (base_model + cur_model) + self.spec_multiline_rec(
                    rem,
                    maxw,
                    cursor_y as int,
                ));
            }
        }
        // Empty text, or text ending in a break, gets the final empty line.
        if paragraph_start == n {
            proof {
                assert(text@.skip(n as int) =~= Seq::<char>::empty());
                assert(rem == spec_paragraphs(Seq::<char>::empty()));
                assert(first_newline(Seq::<char>::empty(), 0) == 0);
                assert(rem =~= seq![Seq::<char>::empty()]);
                assert((2 * paragraph_start as int + 2) * (h as int) <= 0x2000_0002int
                    * 0x1_0000_0000int) by (nonlinear_arith)
                    requires
                        0 <= paragraph_start as int <= 0x1000_0000int,
                        0 <= h as int <= 0xFFFF_FFFFint,
                ;
            }
            let mut lxs: Vec<i64> = Vec::new();
            lxs.push(0);
            let line = Line {
                x_offsets: lxs,
                y_min: cursor_y,
                y_max: cursor_y + h64,
                ends_with_newline: false,
            };
            let ghost base_model = lines@.map_values(|l: Line| line_m(l));
            proof {
                let empty_text = Seq::<char>::empty();
                self.lemma_breaks_props(empty_text, maxw);
                let bs = self.spec_breaks(empty_text, maxw);
                assert(bs.len() == 2);
                assert(self.spec_wrap_count(empty_text, maxw) == 1);
                assert(self.spec_offsets(empty_text) == seq![0int]);
                assert(bs[0] == 0 && bs[1] == 0);
                let lm = self.spec_wrap_line(empty_text, maxw, 0);
                assert(lm.0 =~= seq![0int]);
                assert(line_m(line).0 =~= seq![0int]);
                let cur_model = Seq::new(
                    1nat,
                    |k: int|
                        {
                            let lmk = self.spec_wrap_line(empty_text, maxw, k);
                            (lmk.0, lmk.1 + cursor_y as int, lmk.2 + cursor_y as int, false)
                        },
                );
                assert(cur_model[0] == line_m(line));
                assert(rem.drop_first() =~= Seq::<Seq<char>>::empty());
                assert(self.spec_multiline_rec(Seq::<Seq<char>>::empty(), maxw, cursor_y as int + 1
                    * (self.spec_height() as int) + self.spec_paragraph_gap()) =~= Seq::<
                    (Seq<int>, int, int, bool),
                >::empty());
                assert(cur_model + Seq::<(Seq<int>, int, int, bool)>::empty() =~= cur_model);
                assert(self.spec_multiline_rec(rem, maxw, cursor_y as int) =~= cur_model);
                assert(lines@.push(line).map_values(|l: Line| line_m(l)) =~= base_model
                    + cur_model);
                lemma_count_prefix_push(lines@, line, lines@.len() as int);
                assert(line.wf());
            }
            lines.push(line);
        } else {
            proof {
                assert(self.spec_multiline_rec(rem, maxw, cursor_y as int) =~= Seq::<
                    (Seq<int>, int, int, bool),
                >::empty());
                assert(lines@.map_values(|l: Line| line_m(l)) + Seq::<
                    (Seq<int>, int, int, bool),
                >::empty() =~= lines@.map_values(|l: Line| line_m(l)));
            }
        }
        // Measure the widest line; the height is the last line's bottom.
        let num_lines = lines.len();
        let mut widest: i64 = 0;
        let mut q: usize = 0;
        while q < num_lines
            invariant
                num_lines == lines@.len(),
                q <= num_lines,
                forall|t: int| 0 <= t < lines@.len() ==> (#[trigger] lines@[t]).wf(),
                widest == spec_max_x(lines@.take(q as int)),
            decreases num_lines - q,
        {
            let w = lines[q].max_x();
            proof {
                assert(lines@.take(q as int + 1).drop_last() =~= lines@.take(q as int));
                assert(lines@.take(q as int + 1).last() == lines@[q as int]);
            }
            if w > widest {
                widest = w;
            }
            q += 1;
        }
        proof {
            assert(lines@.take(num_lines as int) =~= lines@);
        }
        let size_y = lines[num_lines - 1].y_max;
        Galley { text, lines, size: Vec2i { x: widest, y: size_y } }
    }
}

} // verus!
