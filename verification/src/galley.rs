use vstd::prelude::*;

use crate::glyph::Vec2i;

verus! {

/// A typeset piece of text on a single visual row.
///
/// `x_offsets` holds the start of each character and, as its last
/// element, the end of the last character; it is never empty, starts at
/// zero, and never decreases. Units are whole device pixels.
#[derive(Clone, Debug, PartialEq)]
pub struct Line {
    /// The start of each character, then the end of the last character.
    pub x_offsets: Vec<i64>,
    /// Top of the line, offset within the galley.
    pub y_min: i64,
    /// Bottom of the line, offset within the galley.
    pub y_max: i64,
    /// True when this line came from a paragraph ending with `'\n'`.
    /// The break character itself is omitted from `x_offsets`; a break
    /// always creates one more line below it, so the last line of a
    /// galley never has this set.
    pub ends_with_newline: bool,
}

/// The column selected on one line for a horizontal position: the first
/// character whose midpoint lies strictly beyond the position, or the
/// last column when none does.
pub open spec fn line_char_at_from(xs: Seq<i64>, x: int, i: int) -> int
    decreases xs.len() - i,
{
    if i + 1 >= xs.len() {
        xs.len() - 1
    } else if 2 * x < xs[i] + xs[i + 1] {
        i
    } else {
        line_char_at_from(xs, x, i + 1)
    }
}

/// The selected column never exceeds the number of characters on the line.
pub proof fn lemma_line_char_at_from_bounds(xs: Seq<i64>, x: int, i: int)
    requires
        0 <= i < xs.len(),
    ensures
        i <= line_char_at_from(xs, x, i) <= xs.len() - 1,
    decreases xs.len() - i,
{
    if i + 1 >= xs.len() {
    } else if 2 * x < xs[i] + xs[i + 1] {
    } else {
        lemma_line_char_at_from_bounds(xs, x, i + 1);
    }
}

impl Line {
    /// The structural invariant: offsets are present, anchored at zero,
    /// non-decreasing, and the vertical span is ordered.
    pub open spec fn wf(self) -> bool {
        &&& self.x_offsets@.len() >= 1
        &&& self.x_offsets@[0] == 0
        &&& forall|i: int|
            0 <= i < self.x_offsets@.len() - 1 ==> #[trigger] self.x_offsets@[i] <= self.x_offsets@[
                i + 1
            ]
        &&& self.y_min <= self.y_max
    }

    /// Number of characters on the line, excluding any implicit break.
    pub open spec fn spec_count_excl(self) -> int {
        self.x_offsets@.len() - 1
    }

    /// Number of characters the line accounts for in the full text,
    /// including the implicit break after it, if any.
    pub open spec fn spec_count_incl(self) -> int {
        self.spec_count_excl() + if self.ends_with_newline {
            1int
        } else {
            0int
        }
    }

    pub open spec fn spec_char_at(self, x: int) -> int {
        line_char_at_from(self.x_offsets@, x, 0)
    }

    /// Runtime check of the structural invariant.
    pub fn sanity_check(&self) -> (r: bool)
        ensures
            r == self.wf(),
    {
        if self.x_offsets.len() == 0 {
            return false;
        }
        if self.x_offsets[0] != 0 {
            return false;
        }
        if self.y_min > self.y_max {
            return false;
        }
        let n = self.x_offsets.len();
        let mut i: usize = 0;
        while i + 1 < n
            invariant
                n == self.x_offsets@.len(),
                1 <= n,
                i < n,
                forall|j: int| 0 <= j < i ==> #[trigger] self.x_offsets@[j] <= self.x_offsets@[j + 1],
            decreases n - i,
        {
            if self.x_offsets[i] > self.x_offsets[i + 1] {
                return false;
            }
            i += 1;
        }
        true
    }

    /// Excludes the implicit `'\n'` after the line, if any.
    pub fn char_count_excluding_newline(&self) -> (r: usize)
        requires
            self.x_offsets@.len() >= 1,
        ensures
            r == self.spec_count_excl(),
    {
        self.x_offsets.len() - 1
    }

    /// Includes the implicit `'\n'` after the line, if any.
    pub fn char_count_including_newline(&self) -> (r: usize)
        requires
            self.x_offsets@.len() >= 1,
        ensures
            r == self.spec_count_incl(),
    {
        if self.ends_with_newline {
            self.x_offsets.len()
        } else {
            self.x_offsets.len() - 1
        }
    }

    pub fn min_x(&self) -> (r: i64)
        requires
            self.x_offsets@.len() >= 1,
        ensures
            r == self.x_offsets@[0],
    {
        self.x_offsets[0]
    }

    pub fn max_x(&self) -> (r: i64)
        requires
            self.x_offsets@.len() >= 1,
        ensures
            r == self.x_offsets@.last(),
    {
        self.x_offsets[self.x_offsets.len() - 1]
    }

    /// Closest column for the desired horizontal position: the first
    /// character whose midpoint between consecutive offsets lies
    /// strictly beyond `desired_x`; a position exactly on a midpoint
    /// selects the following character. Falls back to the last column.
    pub fn char_at(&self, desired_x: i64) -> (r: usize)
        requires
            self.x_offsets@.len() >= 1,
        ensures
            r == self.spec_char_at(desired_x as int),
            r <= self.spec_count_excl(),
    {
        let n = self.x_offsets.len();
        let mut i: usize = 0;
        while i + 1 < n
            invariant
                n == self.x_offsets@.len(),
                1 <= n,
                i < n,
                line_char_at_from(self.x_offsets@, desired_x as int, 0) == line_char_at_from(
                    self.x_offsets@,
                    desired_x as int,
                    i as int,
                ),
            decreases n - i,
        {
            let two_x: i128 = 2 * (desired_x as i128);
            let center2: i128 = self.x_offsets[i] as i128 + self.x_offsets[i + 1] as i128;
            if two_x < center2 {
                return i;
            }
            i += 1;
        }
        n - 1
    }
}

/// A position inside a galley, as a character index plus its line and
/// column; a derived, ephemeral view.
#[derive(Clone, Copy, Debug, Default, PartialEq, Eq, Structural)]
pub struct GalleyCursor {
    /// Character count in the whole galley.
    pub char_idx: usize,
    /// Line number.
    pub line: usize,
    /// Character count on this line.
    pub column: usize,
}

/// A collection of text locked into place.
#[derive(Clone, Debug, PartialEq)]
pub struct Galley {
    /// The full text, including any and all `'\n'`, one entry per character.
    pub text: Vec<char>,
    /// Lines of text, from top to bottom; their character counts,
    /// including implicit breaks, sum up to the length of `text`.
    pub lines: Vec<Line>,
    /// Bounding size, calculated once at layout time.
    pub size: Vec2i,
}

/// Sum of the characters accounted for by the first `k` lines,
/// including implicit breaks.
pub open spec fn count_prefix(lines: Seq<Line>, k: int) -> int
    decreases k,
{
    if k <= 0 {
        0
    } else {
        count_prefix(lines, k - 1) + lines[k - 1].spec_count_incl()
    }
}

/// Characters accounted for by all lines together.
pub open spec fn count_sum(lines: Seq<Line>) -> int {
    count_prefix(lines, lines.len() as int)
}

/// The mathematical content of a [`Line`]: its offsets as integers,
/// its vertical span, and its break flag.
pub open spec fn line_m(l: Line) -> (Seq<int>, int, int, bool) {
    (l.x_offsets@.map_values(|v: i64| v as int), l.y_min as int, l.y_max as int,
    l.ends_with_newline)
}

/// The widest right edge over a run of lines; zero when there are none.
pub open spec fn spec_max_x(ls: Seq<Line>) -> int
    decreases ls.len(),
{
    if ls.len() == 0 {
        0
    } else {
        let m = spec_max_x(ls.drop_last());
        let w = ls.last().x_offsets@.last() as int;
        if w > m {
            w
        } else {
            m
        }
    }
}

/// Appending a line leaves earlier prefix counts unchanged.
pub proof fn lemma_count_prefix_push(s: Seq<Line>, l: Line, k: int)
    requires
        0 <= k <= s.len(),
    ensures
        count_prefix(s.push(l), k) == count_prefix(s, k),
    decreases k,
{
    if k > 0 {
        lemma_count_prefix_push(s, l, k - 1);
        assert(s.push(l)[k - 1] == s[k - 1]);
    }
}

/// Prefix counts never decrease when every line is well formed.
pub proof fn lemma_count_prefix_mono(lines: Seq<Line>, j: int, k: int)
    requires
        0 <= j <= k <= lines.len(),
        forall|m: int| 0 <= m < lines.len() ==> (#[trigger] lines[m]).wf(),
    ensures
        count_prefix(lines, j) <= count_prefix(lines, k),
    decreases k - j,
{
    if j < k {
        lemma_count_prefix_mono(lines, j, k - 1);
        assert(lines[k - 1].wf());
    }
}

/// The position of the character at `idx`, found by scanning lines from
/// `k` with `cc` characters already accounted for; past the end of the
/// text it is the end of the last line, and the origin for an empty
/// galley.
pub open spec fn galley_char_pos_from(lines: Seq<Line>, idx: int, k: int, cc: int) -> (int, int)
    decreases lines.len() - k,
{
    if k < 0 || k >= lines.len() {
        if lines.len() == 0 {
            (0, 0)
        } else {
            (lines[lines.len() - 1].x_offsets@.last() as int, lines[lines.len() - 1].y_min as int)
        }
    } else if idx < cc + lines[k].spec_count_incl() {
        (lines[k].x_offsets@[idx - cc] as int, lines[k].y_min as int)
    } else {
        galley_char_pos_from(lines, idx, k + 1, cc + lines[k].spec_count_incl())
    }
}

/// Vertical distance from a position to a line: the smaller of the
/// distances to its top and to its bottom.
pub open spec fn y_dist(l: Line, y: int) -> int {
    let d_top = if l.y_min - y >= 0 {
        l.y_min - y
    } else {
        y - l.y_min
    };
    let d_bot = if l.y_max - y >= 0 {
        l.y_max - y
    } else {
        y - l.y_max
    };
    if d_top <= d_bot {
        d_top
    } else {
        d_bot
    }
}

/// The cursor chosen by scanning lines from `k`: the first line
/// strictly closer vertically than every line before it wins, and the
/// column on it is chosen by midpoints. `cur` is `(char_idx, line,
/// column)` so far and `best` the best vertical distance so far.
pub open spec fn galley_char_at_from(
    lines: Seq<Line>,
    px: int,
    py: int,
    k: int,
    cc: int,
    best: int,
    cur: (int, int, int),
) -> (int, int, int)
    decreases lines.len() - k,
{
    if k < 0 || k >= lines.len() {
        cur
    } else {
        let d = y_dist(lines[k], py);
        let cc2 = cc + lines[k].spec_count_incl();
        if d < best {
            let col = lines[k].spec_char_at(px);
            galley_char_at_from(lines, px, py, k + 1, cc2, d, (cc + col, k, col))
        } else {
            galley_char_at_from(lines, px, py, k + 1, cc2, best, cur)
        }
    }
}

impl Galley {
    /// The structural invariant: every line is well formed, the line
    /// character counts sum to the text length, and the last line never
    /// ends with a break (a trailing break always yields one more,
    /// empty, line instead).
    pub open spec fn wf(self) -> bool {
        &&& forall|k: int| 0 <= k < self.lines@.len() ==> (#[trigger] self.lines@[k]).wf()
        &&& count_sum(self.lines@) == self.text@.len()
        &&& self.lines@.len() > 0 ==> !self.lines@[self.lines@.len() - 1].ends_with_newline
    }

    pub open spec fn spec_char_pos(self, idx: int) -> (int, int) {
        galley_char_pos_from(self.lines@, idx, 0, 0)
    }

    pub open spec fn spec_char_at(self, px: int, py: int) -> (int, int, int) {
        galley_char_at_from(self.lines@, px, py, 0, 0, i128::MAX as int, (0, 0, 0))
    }

    /// Runtime check of the structural invariant.
    pub fn sanity_check(&self) -> (r: bool)
        ensures
            r == self.wf(),
    {
        let n = self.lines.len();
        let total = self.text.len();
        let mut cc: usize = 0;
        let mut k: usize = 0;
        while k < n
            invariant
                n == self.lines@.len(),
                total == self.text@.len(),
                k <= n,
                cc == count_prefix(self.lines@, k as int),
                forall|m: int| 0 <= m < k ==> (#[trigger] self.lines@[m]).wf(),
            decreases n - k,
        {
            let line = &self.lines[k];
            if !line.sanity_check() {
                return false;
            }
            let cnt = line.char_count_including_newline();
            let sum = cc.checked_add(cnt);
            match sum {
                Some(s) => {
                    proof {
                        assert(s == count_prefix(self.lines@, k as int + 1));
                    }
                    cc = s;
                },
                None => {
                    proof {
                        if self.wf() {
                            lemma_count_prefix_mono(
                                self.lines@,
                                k as int + 1,
                                self.lines@.len() as int,
                            );
                        }
                    }
                    return false;
                },
            }
            k += 1;
        }
        if cc != total {
            return false;
        }
        if n > 0 && self.lines[n - 1].ends_with_newline {
            return false;
        }
        true
    }

    /// The galley position of the character at `char_idx`: the start of
    /// that character on its owning line, paired with the line's top.
    /// An index past the end of the text gives the end of the last
    /// line; an empty galley gives the origin.
    pub fn char_start_pos(&self, char_idx: usize) -> (r: Vec2i)
        requires
            self.wf(),
        ensures
            (r.x as int, r.y as int) == self.spec_char_pos(char_idx as int),
    {
        let n = self.lines.len();
        let total = self.text.len();
        let mut cc: usize = 0;
        let mut k: usize = 0;
        while k < n
            invariant
                self.wf(),
                n == self.lines@.len(),
                total == self.text@.len(),
                k <= n,
                cc <= char_idx,
                cc == count_prefix(self.lines@, k as int),
                galley_char_pos_from(self.lines@, char_idx as int, 0, 0) == galley_char_pos_from(
                    self.lines@,
                    char_idx as int,
                    k as int,
                    cc as int,
                ),
            decreases n - k,
        {
            let line = &self.lines[k];
            proof {
                assert(self.lines@[k as int].wf());
                lemma_count_prefix_mono(self.lines@, k as int + 1, self.lines@.len() as int);
            }
            let line_char_count = line.char_count_including_newline();
            proof {
                assert(cc + line_char_count == count_prefix(self.lines@, k as int + 1));
            }
            if char_idx < cc + line_char_count {
                let line_char_offset = char_idx - cc;
                return Vec2i { x: line.x_offsets[line_char_offset], y: line.y_min };
            }
            cc += line_char_count;
            k += 1;
        }
        if n > 0 {
            let last = &self.lines[n - 1];
            proof {
                assert(self.lines@[n - 1].wf());
            }
            Vec2i { x: last.max_x(), y: last.y_min }
        } else {
            Vec2i { x: 0, y: 0 }
        }
    }

    /// The cursor at the given position within the galley: the line
    /// closest vertically (first closest wins), then the column chosen
    /// by midpoints on that line. The character index never exceeds the
    /// text length.
    pub fn char_at(&self, pos: Vec2i) -> (r: GalleyCursor)
        requires
            self.wf(),
        ensures
            (r.char_idx as int, r.line as int, r.column as int) == self.spec_char_at(
                pos.x as int,
                pos.y as int,
            ),
            r.char_idx <= self.text@.len(),
    {
        let n = self.lines.len();
        let total = self.text.len();
        let mut best_y_dist: i128 = i128::MAX;
        let mut cursor = GalleyCursor { char_idx: 0, line: 0, column: 0 };
        let mut cc: usize = 0;
        let mut k: usize = 0;
        while k < n
            invariant
                self.wf(),
                n == self.lines@.len(),
                total == self.text@.len(),
                k <= n,
                cc == count_prefix(self.lines@, k as int),
                cc <= self.text@.len(),
                cursor.char_idx <= cc,
                galley_char_at_from(
                    self.lines@,
                    pos.x as int,
                    pos.y as int,
                    0,
                    0,
                    i128::MAX as int,
                    (0, 0, 0),
                ) == galley_char_at_from(
                    self.lines@,
                    pos.x as int,
                    pos.y as int,
                    k as int,
                    cc as int,
                    best_y_dist as int,
                    (cursor.char_idx as int, cursor.line as int, cursor.column as int),
                ),
            decreases n - k,
        {
            let line = &self.lines[k];
            proof {
                assert(self.lines@[k as int].wf());
                lemma_count_prefix_mono(self.lines@, k as int + 1, self.lines@.len() as int);
            }
            let d_top_raw: i128 = line.y_min as i128 - pos.y as i128;
            let d_top: i128 = if d_top_raw >= 0 {
                d_top_raw
            } else {
                -d_top_raw
            };
            let d_bot_raw: i128 = line.y_max as i128 - pos.y as i128;
            let d_bot: i128 = if d_bot_raw >= 0 {
                d_bot_raw
            } else {
                -d_bot_raw
            };
            let d: i128 = if d_top <= d_bot {
                d_top
            } else {
                d_bot
            };
            let line_char_count = line.char_count_including_newline();
            proof {
                assert(cc + line_char_count == count_prefix(self.lines@, k as int + 1));
                assert(d as int == y_dist(self.lines@[k as int], pos.y as int));
            }
            let ghost pre_cur = (cursor.char_idx as int, cursor.line as int, cursor.column as int);
            let ghost pre_best = best_y_dist as int;
            if d < best_y_dist {
                best_y_dist = d;
                let column = line.char_at(pos.x);
                cursor = GalleyCursor { char_idx: cc + column, line: k, column };
                proof {
                    assert(galley_char_at_from(
                        self.lines@,
                        pos.x as int,
                        pos.y as int,
                        k as int,
                        cc as int,
                        pre_best,
                        pre_cur,
                    ) == galley_char_at_from(
                        self.lines@,
                        pos.x as int,
                        pos.y as int,
                        k as int + 1,
                        cc as int + line_char_count,
                        d as int,
                        (cursor.char_idx as int, cursor.line as int, cursor.column as int),
                    ));
                }
            } else {
                proof {
                    assert(galley_char_at_from(
                        self.lines@,
                        pos.x as int,
                        pos.y as int,
                        k as int,
                        cc as int,
                        pre_best,
                        pre_cur,
                    ) == galley_char_at_from(
                        self.lines@,
                        pos.x as int,
                        pos.y as int,
                        k as int + 1,
                        cc as int + line_char_count,
                        pre_best,
                        pre_cur,
                    ));
                }
            }
            cc += line_char_count;
            k += 1;
        }
        cursor
    }
}

} // verus!
