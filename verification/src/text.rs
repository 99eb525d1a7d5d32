//! Textual patterns: rendering a grid as glyph lines and parsing a grid
//! back from them.
//!
//! The parse alphabet is the two glyphs of [`crate::cell`]; any other
//! character in a line is skipped, not counted as a column. Rows shorter
//! than the widest row leave their remaining cells dead.

use vstd::prelude::*;

use vstd::string::{StrSliceExecFns, StringExecFns};

use crate::cell::{glyph_alive, glyph_of, is_glyph, Cell};
use crate::universe::{index_spec, lemma_index_in_range, lemma_index_injective, Universe};

verus! {

/// Whether `ch` is whitespace that surrounding trim removes.
pub open spec fn is_space(ch: char) -> bool {
    ch == ' ' || ch == '\t' || ch == '\r' || ch == '\n'
}

/// `s` with leading whitespace removed.
pub open spec fn trim_front(s: Seq<char>) -> Seq<char>
    decreases s.len(),
{
    if s.len() > 0 && is_space(s[0]) {
        trim_front(s.drop_first())
    } else {
        s
    }
}

/// `s` with trailing whitespace removed.
pub open spec fn trim_back(s: Seq<char>) -> Seq<char>
    decreases s.len(),
{
    if s.len() > 0 && is_space(s.last()) {
        trim_back(s.drop_last())
    } else {
        s
    }
}

/// `s` with surrounding whitespace removed.
pub open spec fn trim_spec(s: Seq<char>) -> Seq<char> {
    trim_back(trim_front(s))
}

/// `s` split at every newline, as `str::split('\n')` does: always at
/// least one piece, and a trailing newline yields a final empty piece.
pub open spec fn split_lines(s: Seq<char>) -> Seq<Seq<char>>
    decreases s.len(),
{
    if s.len() == 0 {
        seq![Seq::<char>::empty()]
    } else {
        let rest = split_lines(s.drop_first());
        if s[0] == '\n' {
            seq![Seq::<char>::empty()] + rest
        } else {
            seq![seq![s[0]] + rest[0]] + rest.drop_first()
        }
    }
}

/// The cells one text line denotes: each recognized glyph in order, any
/// other character skipped.
pub open spec fn row_cells(line: Seq<char>) -> Seq<bool>
    decreases line.len(),
{
    if line.len() == 0 {
        Seq::<bool>::empty()
    } else {
        let rest = row_cells(line.drop_first());
        if is_glyph(line[0]) {
            seq![glyph_alive(line[0])] + rest
        } else {
            rest
        }
    }
}

/// The length of the longest row.
pub open spec fn max_len(rows: Seq<Seq<bool>>) -> int
    decreases rows.len(),
{
    if rows.len() == 0 {
        0
    } else {
        let m = max_len(rows.drop_first());
        if rows[0].len() >= m {
            rows[0].len() as int
        } else {
            m
        }
    }
}

/// The cells each of a list of lines denotes.
pub open spec fn cells_of_lines(lines: Seq<Seq<char>>) -> Seq<Seq<bool>> {
    lines.map_values(|line: Seq<char>| row_cells(line))
}

/// The views of a list of row vectors.
pub open spec fn views_of(rows: Seq<Vec<bool>>) -> Seq<Seq<bool>> {
    rows.map_values(|row: Vec<bool>| row@)
}

/// The rows of cells a pattern text denotes: the text is trimmed, split
/// into lines, and each line keeps its recognized glyphs.
pub open spec fn parse_rows(s: Seq<char>) -> Seq<Seq<bool>> {
    cells_of_lines(split_lines(trim_spec(s)))
}

/// The height a pattern text parses to: its number of lines.
pub open spec fn parse_height(s: Seq<char>) -> int {
    parse_rows(s).len() as int
}

/// The width a pattern text parses to: its longest row of recognized
/// glyphs.
pub open spec fn parse_width(s: Seq<char>) -> int {
    max_len(parse_rows(s))
}

/// The parsed cell at `(r, c)`: alive exactly when row `r` has a glyph
/// at column `c` and it is the alive glyph; cells past a short row are
/// dead.
pub open spec fn parse_cell(s: Seq<char>, r: int, c: int) -> bool {
    let rows = parse_rows(s);
    0 <= r < rows.len() && 0 <= c < rows[r].len() && rows[r][c]
}

/// The `w` glyphs of grid row `r`, without the newline.
pub open spec fn glyph_row(g: Seq<bool>, w: int, r: int) -> Seq<char> {
    Seq::new(w as nat, |c: int| glyph_of(g[r * w + c]))
}

/// One rendered grid row: `w` glyphs and a terminating newline.
pub open spec fn render_row_spec(g: Seq<bool>, w: int, r: int) -> Seq<char> {
    glyph_row(g, w, r).push('\n')
}

/// The first `k` rendered rows, concatenated.
pub open spec fn render_rows(g: Seq<bool>, w: int, k: int) -> Seq<char>
    decreases k,
{
    if k <= 0 {
        Seq::<char>::empty()
    } else {
        render_rows(g, w, k - 1) + render_row_spec(g, w, k - 1)
    }
}

/// The full rendering of a `w` by `h` grid: `h` lines of `w` glyphs,
/// each line newline-terminated.
pub open spec fn render_spec(g: Seq<bool>, w: int, h: int) -> Seq<char> {
    render_rows(g, w, h)
}

/// Every text splits into at least one line.
pub proof fn lemma_split_lines_len(s: Seq<char>)
    ensures
        split_lines(s).len() >= 1,
    decreases s.len(),
{
    if s.len() != 0 {
        lemma_split_lines_len(s.drop_first());
    }
}

/// Appending one character to a text extends its last line, or opens a
/// new empty line at a newline.
pub proof fn lemma_split_lines_push(s: Seq<char>, ch: char)
    ensures
        split_lines(s.push(ch)) == if ch == '\n' {
            split_lines(s).push(Seq::<char>::empty())
        } else {
            split_lines(s).update(
                split_lines(s).len() - 1,
                split_lines(s).last().push(ch),
            )
        },
    decreases s.len(),
{
    lemma_split_lines_len(s);
    if s.len() == 0 {
        let t = s.push(ch);
        assert(t.len() == 1);
        assert(t[0] == ch);
        assert(t.drop_first() =~= Seq::<char>::empty());
        assert(split_lines(t.drop_first()) == split_lines(Seq::<char>::empty()));
        assert(split_lines(Seq::<char>::empty()) =~~= seq![Seq::<char>::empty()]);
        if ch == '\n' {
            assert(split_lines(s.push(ch)) =~~= split_lines(s).push(Seq::<char>::empty()));
        } else {
            assert(split_lines(s.push(ch)) =~~= split_lines(s).update(
                split_lines(s).len() - 1,
                split_lines(s).last().push(ch),
            ));
        }
    } else {
        assert(s.push(ch)[0] == s[0]);
        assert(s.push(ch).drop_first() =~= s.drop_first().push(ch));
        lemma_split_lines_len(s.drop_first());
        lemma_split_lines_push(s.drop_first(), ch);
        if ch == '\n' {
            assert(split_lines(s.push(ch)) =~~= split_lines(s).push(Seq::<char>::empty()));
        } else {
            assert(split_lines(s.push(ch)) =~~= split_lines(s).update(
                split_lines(s).len() - 1,
                split_lines(s).last().push(ch),
            ));
        }
    }
}

/// Appending one character to a line appends its cell when it is a
/// recognized glyph and changes nothing otherwise.
pub proof fn lemma_row_cells_push(line: Seq<char>, ch: char)
    ensures
        row_cells(line.push(ch)) == if is_glyph(ch) {
            row_cells(line).push(glyph_alive(ch))
        } else {
            row_cells(line)
        },
    decreases line.len(),
{
    if line.len() == 0 {
        assert(line.push(ch)[0] == ch);
        assert(line.push(ch).drop_first() =~= Seq::<char>::empty());
        assert(row_cells(line.push(ch).drop_first()) == row_cells(Seq::<char>::empty()));
        assert(row_cells(Seq::<char>::empty()) =~= Seq::<bool>::empty());
        if is_glyph(ch) {
            assert(row_cells(line.push(ch)) =~= row_cells(line).push(glyph_alive(ch)));
        } else {
            assert(row_cells(line.push(ch)) =~= row_cells(line));
        }
    } else {
        assert(line.push(ch)[0] == line[0]);
        assert(line.push(ch).drop_first() =~= line.drop_first().push(ch));
        lemma_row_cells_push(line.drop_first(), ch);
        if is_glyph(ch) {
            assert(row_cells(line.push(ch)) =~= row_cells(line).push(glyph_alive(ch)));
        } else {
            assert(row_cells(line.push(ch)) =~= row_cells(line));
        }
    }
}

/// The longest row is never negative in length.
pub proof fn lemma_max_len_nonneg(rows: Seq<Seq<bool>>)
    ensures
        max_len(rows) >= 0,
    decreases rows.len(),
{
    if rows.len() != 0 {
        lemma_max_len_nonneg(rows.drop_first());
    }
}

/// Every row is at most as long as the longest row.
pub proof fn lemma_max_len_ge(rows: Seq<Seq<bool>>, i: int)
    requires
        0 <= i < rows.len(),
    ensures
        rows[i].len() <= max_len(rows),
    decreases rows.len(),
{
    lemma_max_len_nonneg(rows.drop_first());
    if i > 0 {
        lemma_max_len_ge(rows.drop_first(), i - 1);
    }
}

/// Appending a row to a list of rows takes the maximum of the two
/// lengths.
pub proof fn lemma_max_len_push(rows: Seq<Seq<bool>>, row: Seq<bool>)
    ensures
        max_len(rows.push(row)) == if row.len() as int >= max_len(rows) {
            row.len() as int
        } else {
            max_len(rows)
        },
    decreases rows.len(),
{
    if rows.len() == 0 {
        assert(rows.push(row).drop_first() =~~= rows);
    } else {
        assert(rows.push(row)[0] == rows[0]);
        assert(rows.push(row).drop_first() =~~= rows.drop_first().push(row));
        lemma_max_len_push(rows.drop_first(), row);
    }
}

/// When the first `k` characters are whitespace and the next one is
/// not, front trimming drops exactly those `k`.
pub proof fn lemma_trim_front_is_skip(s: Seq<char>, k: int)
    requires
        0 <= k <= s.len(),
        forall|j: int| 0 <= j < k ==> is_space(s[j]),
        k == s.len() || !is_space(s[k]),
    ensures
        trim_front(s) == s.skip(k),
    decreases k,
{
    if k == 0 {
        assert(s.skip(0) =~= s);
    } else {
        assert(s.drop_first() =~= s.skip(1));
        lemma_trim_front_is_skip(s.drop_first(), k - 1);
        assert(s.drop_first().skip(k - 1) =~= s.skip(k));
    }
}

/// When everything from position `k` on is whitespace and the character
/// before it is not, back trimming keeps exactly the first `k`.
pub proof fn lemma_trim_back_is_take(s: Seq<char>, k: int)
    requires
        0 <= k <= s.len(),
        forall|j: int| k <= j < s.len() ==> is_space(s[j]),
        k == 0 || !is_space(s[k - 1]),
    ensures
        trim_back(s) == s.take(k),
    decreases s.len(),
{
    if k == s.len() {
        assert(s.take(k) =~= s);
    } else {
        assert(s.drop_last() =~= s.take(s.len() - 1));
        lemma_trim_back_is_take(s.drop_last(), k);
        assert(s.drop_last().take(k) =~= s.take(k));
    }
}

/// A text of `n` characters splits into at most `n + 1` lines.
pub proof fn lemma_split_lines_count(s: Seq<char>)
    ensures
        split_lines(s).len() <= s.len() + 1,
    decreases s.len(),
{
    if s.len() != 0 {
        lemma_split_lines_count(s.drop_first());
        lemma_split_lines_len(s.drop_first());
    }
}

/// No line of a split is longer than the text it came from.
pub proof fn lemma_split_lines_line_len(s: Seq<char>, m: int)
    requires
        0 <= m < split_lines(s).len(),
    ensures
        split_lines(s)[m].len() <= s.len(),
    decreases s.len(),
{
    if s.len() != 0 {
        lemma_split_lines_len(s.drop_first());
        if s[0] == '\n' {
            if m > 0 {
                lemma_split_lines_line_len(s.drop_first(), m - 1);
            }
        } else {
            if m == 0 {
                lemma_split_lines_line_len(s.drop_first(), 0);
            } else {
                lemma_split_lines_line_len(s.drop_first(), m);
            }
        }
    }
}

/// A text without a newline splits into itself as its one line.
pub proof fn lemma_split_lines_single(s: Seq<char>)
    requires
        forall|i: int| 0 <= i < s.len() ==> s[i] != '\n',
    ensures
        split_lines(s) == seq![s],
    decreases s.len(),
{
    if s.len() == 0 {
        assert(split_lines(s) =~~= seq![s]);
    } else {
        lemma_split_lines_single(s.drop_first());
        assert(split_lines(s) =~~= seq![s]);
    }
}

/// Splitting around one newline splits each side on its own.
pub proof fn lemma_split_lines_join(a: Seq<char>, b: Seq<char>)
    ensures
        split_lines(a + seq!['\n'] + b) == split_lines(a) + split_lines(b),
    decreases a.len(),
{
    lemma_split_lines_len(b);
    if a.len() == 0 {
        let s = a + seq!['\n'] + b;
        assert(s[0] == '\n');
        assert(s.drop_first() =~= b);
        assert(split_lines(s) =~~= split_lines(a) + split_lines(b));
    } else {
        let s = a + seq!['\n'] + b;
        assert(s[0] == a[0]);
        assert(s.drop_first() =~= a.drop_first() + seq!['\n'] + b);
        lemma_split_lines_join(a.drop_first(), b);
        lemma_split_lines_len(a.drop_first());
        if a[0] == '\n' {
            assert(split_lines(s) =~~= split_lines(a) + split_lines(b));
        } else {
            assert((split_lines(a.drop_first()) + split_lines(b)).drop_first()
                =~~= split_lines(a.drop_first()).drop_first() + split_lines(b));
            assert(split_lines(s) =~~= split_lines(a) + split_lines(b));
        }
    }
}

/// A line made only of recognized glyphs parses cell for cell.
pub proof fn lemma_row_cells_glyphs(line: Seq<char>)
    requires
        forall|i: int| 0 <= i < line.len() ==> is_glyph(line[i]),
    ensures
        row_cells(line).len() == line.len(),
        forall|i: int|
            0 <= i < line.len() ==> row_cells(line)[i] == glyph_alive(line[i]),
    decreases line.len(),
{
    if line.len() > 0 {
        lemma_row_cells_glyphs(line.drop_first());
        assert forall|i: int|
            0 <= i < line.len() implies row_cells(line)[i] == glyph_alive(line[i]) by {
            if i > 0 {
                assert(row_cells(line)[i] == row_cells(line.drop_first())[i - 1]);
            }
        }
    }
}

/// When every row has length `w`, the longest row has length `w`.
pub proof fn lemma_max_len_const(rows: Seq<Seq<bool>>, w: int)
    requires
        rows.len() >= 1,
        forall|i: int| 0 <= i < rows.len() ==> rows[i].len() == w,
    ensures
        max_len(rows) == w,
    decreases rows.len(),
{
    if rows.len() > 1 {
        lemma_max_len_const(rows.drop_first(), w);
    } else {
        assert(rows.drop_first().len() == 0);
        assert(max_len(rows.drop_first()) == 0);
    }
}

/// A rendering of `k` rows is `k * (w + 1)` characters long.
pub proof fn lemma_render_rows_len(g: Seq<bool>, w: int, k: int)
    requires
        0 <= w,
        0 <= k,
    ensures
        render_rows(g, w, k).len() == k * (w + 1),
    decreases k,
{
    if k == 0 {
        assert(0 * (w + 1) == 0) by (nonlinear_arith);
    } else {
        lemma_render_rows_len(g, w, k - 1);
        assert((k - 1) * (w + 1) + (w + 1) == k * (w + 1)) by (nonlinear_arith);
    }
}

/// A nonempty rendering opens with the glyph of cell zero.
pub proof fn lemma_render_rows_first(g: Seq<bool>, w: int, k: int)
    requires
        1 <= w,
        1 <= k,
    ensures
        render_rows(g, w, k).len() >= 1,
        render_rows(g, w, k)[0] == glyph_of(g[0]),
    decreases k,
{
    if k == 1 {
        assert(render_rows(g, w, 0) =~= Seq::<char>::empty());
        assert(render_rows(g, w, 1) =~= render_row_spec(g, w, 0));
        assert(0 * w + 0 == 0) by (nonlinear_arith);
        assert(render_row_spec(g, w, 0)[0] == glyph_of(g[0 * w + 0]));
    } else {
        lemma_render_rows_first(g, w, k - 1);
    }
}

/// The rendering without its final newline splits back into the glyph
/// rows, one line per grid row.
pub proof fn lemma_split_render_body(g: Seq<bool>, w: int, k: int)
    requires
        1 <= w,
        1 <= k,
    ensures
        render_rows(g, w, k).len() >= 1,
        render_rows(g, w, k).last() == '\n',
        split_lines(render_rows(g, w, k).drop_last()).len() == k,
        forall|r: int|
            0 <= r < k ==> split_lines(render_rows(g, w, k).drop_last())[r] == glyph_row(
                g,
                w,
                r,
            ),
    decreases k,
{
    assert forall|r: int, i: int|
        0 <= r && 0 <= i < w implies glyph_row(g, w, r)[i] != '\n' && is_glyph(
        glyph_row(g, w, r)[i],
    ) by {
        assert(glyph_row(g, w, r)[i] == glyph_of(g[r * w + i]));
    }
    if k == 1 {
        assert(render_rows(g, w, 0) =~= Seq::<char>::empty());
        assert(render_rows(g, w, 1) =~= render_row_spec(g, w, 0));
        assert(render_rows(g, w, 1).drop_last() =~= glyph_row(g, w, 0));
        lemma_split_lines_single(glyph_row(g, w, 0));
    } else {
        lemma_split_render_body(g, w, k - 1);
        let prev = render_rows(g, w, k - 1);
        let body_prev = prev.drop_last();
        let body = render_rows(g, w, k).drop_last();
        assert(prev =~= body_prev.push('\n'));
        assert(body =~= body_prev + seq!['\n'] + glyph_row(g, w, k - 1));
        lemma_split_lines_join(body_prev, glyph_row(g, w, k - 1));
        lemma_split_lines_single(glyph_row(g, w, k - 1));
        assert(split_lines(body) =~~= split_lines(body_prev) + seq![
            glyph_row(g, w, k - 1),
        ]);
    }
}

/// The render→parse round trip: parsing a rendered `w` by `h` grid
/// recovers the same width, height, and cells.
pub proof fn lemma_render_parse_roundtrip(g: Seq<bool>, w: int, h: int)
    requires
        1 <= w,
        1 <= h,
        g.len() == w * h,
    ensures
        parse_height(render_spec(g, w, h)) == h,
        parse_width(render_spec(g, w, h)) == w,
        forall|r: int, c: int|
            0 <= r < h && 0 <= c < w ==> parse_cell(render_spec(g, w, h), r, c) == g[r * w
                + c],
{
    let rend = render_rows(g, w, h);
    lemma_render_rows_len(g, w, h);
    assert(h * (w + 1) >= 2 && h * (w + 1) - 1 - (h - 1) * (w + 1) == w && h * (w + 1) - 2
        - (h - 1) * (w + 1) == w - 1) by (nonlinear_arith)
        requires
            1 <= w,
            1 <= h,
    ;
    lemma_render_rows_first(g, w, h);
    assert(rend[0] == glyph_of(g[0]));
    assert(!is_space(rend[0]));
    lemma_trim_front_is_skip(rend, 0);
    assert(rend.skip(0) =~= rend);
    lemma_render_rows_len(g, w, h - 1);
    assert(rend[rend.len() - 1] == render_row_spec(g, w, h - 1)[w]);
    assert(rend[rend.len() - 1] == '\n');
    assert(rend[rend.len() - 2] == render_row_spec(g, w, h - 1)[w - 1]);
    assert(rend[rend.len() - 2] == glyph_of(g[(h - 1) * w + (w - 1)]));
    assert(!is_space(rend[rend.len() - 2]));
    lemma_trim_back_is_take(rend, rend.len() - 1);
    assert(trim_spec(rend) == rend.take(rend.len() - 1));
    assert(rend.take(rend.len() - 1) =~= rend.drop_last());
    lemma_split_render_body(g, w, h);
    let lines = split_lines(rend.drop_last());
    let prows = parse_rows(rend);
    assert(prows.len() == lines.len());
    assert forall|r: int| 0 <= r < h implies prows[r] == row_cells(glyph_row(g, w, r)) by {
        assert(prows[r] == row_cells(lines[r]));
    }
    assert forall|r: int| 0 <= r < h implies prows[r].len() == w && forall|c: int|
        0 <= c < w ==> prows[r][c] == g[r * w + c] by {
        lemma_row_cells_glyphs(glyph_row(g, w, r));
        assert forall|c: int| 0 <= c < w implies prows[r][c] == g[r * w + c] by {
            assert(prows[r][c] == glyph_alive(glyph_row(g, w, r)[c]));
            assert(glyph_row(g, w, r)[c] == glyph_of(g[r * w + c]));
        }
    }
    lemma_max_len_const(prows, w);
}

/// The render→parse round trip on a grid: parsing the rendered text of
/// a well-formed grid recovers its width, its height, and every cell.
pub proof fn lemma_render_parse_universe(u: Universe)
    requires
        u.wf(),
    ensures
        parse_width(render_spec(u.grid(), u.spec_width() as int, u.spec_height() as int))
            == u.spec_width(),
        parse_height(render_spec(u.grid(), u.spec_width() as int, u.spec_height() as int))
            == u.spec_height(),
        forall|r: int, c: int|
            0 <= r < u.spec_height() && 0 <= c < u.spec_width() ==> parse_cell(
                render_spec(u.grid(), u.spec_width() as int, u.spec_height() as int),
                r,
                c,
            ) == u.at(r, c),
{
    u.lemma_wf();
    lemma_render_parse_roundtrip(u.grid(), u.spec_width() as int, u.spec_height() as int);
}

/// Whether `ch` is whitespace that trimming removes.
fn is_space_char(ch: char) -> (b: bool)
    ensures
        b == is_space(ch),
{
    ch == ' ' || ch == '\t' || ch == '\r' || ch == '\n'
}

impl Universe {
    /// The grid as text: `height` lines of `width` glyphs each,
    /// row-major, every line newline-terminated.
    pub fn render(&self) -> (out: String)
        requires
            self.wf(),
        ensures
            out@ == render_spec(
                self.grid(),
                self.spec_width() as int,
                self.spec_height() as int,
            ),
    {
        let ghost wi = self.spec_width() as int;
        let ghost hi = self.spec_height() as int;
        let ghost g = self.grid();
        proof {
            self.lemma_wf();
            assert(wi <= i32::MAX && hi <= i32::MAX) by (nonlinear_arith)
                requires
                    1 <= wi,
                    1 <= hi,
                    wi * hi <= i32::MAX,
            ;
            reveal_strlit("◻");
            reveal_strlit("◼");
            reveal_strlit("\n");
        }
        let w = self.width();
        let h = self.height();
        let mut out = String::new();
        let mut r: u32 = 0;
        while r < h
            invariant
                self.wf(),
                wi == self.spec_width(),
                hi == self.spec_height(),
                g == self.grid(),
                wi <= i32::MAX,
                hi <= i32::MAX,
                w == wi,
                h == hi,
                r <= h,
                out@ == render_rows(g, wi, r as int),
                ("◻")@ == seq!['◻'],
                ("◼")@ == seq!['◼'],
                ("\n")@ == seq!['\n'],
            decreases h - r,
        {
            let ghost row_start = out@;
            let mut c: u32 = 0;
            while c < w
                invariant
                    self.wf(),
                    wi == self.spec_width(),
                    hi == self.spec_height(),
                    g == self.grid(),
                    wi <= i32::MAX,
                    hi <= i32::MAX,
                    w == wi,
                    h == hi,
                    r < h,
                    c <= w,
                    out@ == row_start + Seq::new(c as nat, |j: int| glyph_of(g[r * wi + j])),
                    ("◻")@ == seq!['◻'],
                    ("◼")@ == seq!['◼'],
                    ("\n")@ == seq!['\n'],
                decreases w - c,
            {
                proof {
                    vstd::arithmetic::div_mod::lemma_small_mod(r as nat, hi as nat);
                    vstd::arithmetic::div_mod::lemma_small_mod(c as nat, wi as nat);
                }
                if self.get_cell(r as i32, c as i32).as_bool() {
                    out.append("◼");
                } else {
                    out.append("◻");
                }
                proof {
                    assert(out@ =~= row_start + Seq::new(
                        (c + 1) as nat,
                        |j: int| glyph_of(g[r * wi + j]),
                    ));
                }
                c += 1;
            }
            out.append("\n");
            proof {
                assert(out@ =~= render_rows(g, wi, r as int) + render_row_spec(g, wi, r as int));
            }
            r += 1;
        }
        out
    }

    /// The grid a pattern text denotes: the text is trimmed and split
    /// into lines; the height is the number of lines and the width the
    /// longest line's count of recognized glyphs, unrecognized
    /// characters being skipped; short rows leave their remaining cells
    /// dead. `None` exactly when no line has a recognized glyph, or the
    /// parsed cell count is past the index arithmetic's limit.
    pub fn from_str(s: &str) -> (u: Option<Universe>)
        ensures
            u is Some <==> (1 <= parse_width(s@) && parse_width(s@) * parse_height(s@)
                <= i32::MAX),
            u matches Some(universe) ==> {
                &&& universe.wf()
                &&& universe.spec_width() == parse_width(s@)
                &&& universe.spec_height() == parse_height(s@)
                &&& forall|r: int, c: int|
                    0 <= r < parse_height(s@) && 0 <= c < parse_width(s@)
                        ==> universe.at(r, c) == parse_cell(s@, r, c)
            },
    {
        let n = s.unicode_len();
        let mut v: Vec<char> = Vec::new();
        let mut i: usize = 0;
        while i < n
            invariant
                i <= n,
                n == s@.len(),
                v@ == s@.take(i as int),
            decreases n - i,
        {
            let ch = s.get_char(i);
            v.push(ch);
            proof {
                assert(v@ =~= s@.take(i + 1 as int));
            }
            i += 1;
        }
        proof {
            assert(v@ =~= s@);
        }
        let len = v.len();
        let mut start: usize = 0;
        while start < len && is_space_char(v[start])
            invariant
                start <= len,
                len == v@.len(),
                forall|j: int| 0 <= j < start ==> is_space(v@[j]),
            decreases len - start,
        {
            start += 1;
        }
        let mut end: usize = len;
        while end > start && is_space_char(v[end - 1])
            invariant
                start <= end <= len,
                len == v@.len(),
                forall|j: int| 0 <= j < start ==> is_space(v@[j]),
                forall|j: int| end <= j < len ==> is_space(v@[j]),
            decreases end,
        {
            end -= 1;
        }
        proof {
            lemma_trim_front_is_skip(v@, start as int);
            let skipped = v@.skip(start as int);
            assert forall|j: int| (end - start) <= j < skipped.len() implies is_space(
                skipped[j],
            ) by {
                assert(skipped[j] == v@[j + start]);
            }
            lemma_trim_back_is_take(skipped, end - start);
            assert(trim_spec(v@) =~= v@.subrange(start as int, end as int));
        }
        let mut t: Vec<char> = Vec::new();
        let mut j: usize = start;
        while j < end
            invariant
                start <= j <= end <= len,
                len == v@.len(),
                t@ == v@.subrange(start as int, j as int),
            decreases end - j,
        {
            t.push(v[j]);
            proof {
                assert(t@ =~= v@.subrange(start as int, j + 1 as int));
            }
            j += 1;
        }
        proof {
            assert(t@ == trim_spec(s@));
        }
        let mut rows: Vec<Vec<bool>> = Vec::new();
        let mut cur: Vec<bool> = Vec::new();
        let mut p: usize = 0;
        while p < t.len()
            invariant
                p <= t@.len(),
                t@ == trim_spec(s@),
                views_of(rows@).push(cur@) == cells_of_lines(split_lines(t@.take(p as int))),
            decreases t@.len() - p,
        {
            let ch = t[p];
            proof {
                let prefix = t@.take(p as int);
                assert(prefix.push(ch) =~= t@.take(p + 1 as int));
                lemma_split_lines_len(prefix);
                lemma_split_lines_push(prefix, ch);
                lemma_row_cells_push(split_lines(prefix).last(), ch);
                assert(row_cells(Seq::<char>::empty()) =~= Seq::<bool>::empty());
            }
            let ghost old_map = views_of(rows@);
            let ghost old_cur = cur@;
            let ghost prefix_lines = split_lines(t@.take(p as int));
            proof {
                assert(old_map.push(old_cur) == cells_of_lines(prefix_lines));
                assert(cells_of_lines(prefix_lines).len() == prefix_lines.len());
                assert(old_map.len() == prefix_lines.len() - 1);
                assert(old_cur == cells_of_lines(prefix_lines).last());
                assert(old_cur == row_cells(prefix_lines.last()));
            }
            if ch == '\n' {
                rows.push(cur);
                cur = Vec::new();
                proof {
                    assert(views_of(rows@) =~~= old_map.push(old_cur));
                    assert(cur@ =~= Seq::<bool>::empty());
                    assert(split_lines(t@.take(p + 1 as int)) == prefix_lines.push(
                        Seq::<char>::empty(),
                    ));
                    assert(views_of(rows@).push(cur@) =~~= cells_of_lines(split_lines(
                        t@.take(p + 1 as int),
                    )));
                }
            } else {
                proof {
                    assert(split_lines(t@.take(p + 1 as int)) == prefix_lines.update(
                        prefix_lines.len() - 1,
                        prefix_lines.last().push(ch),
                    ));
                }
                match Cell::from_char(ch) {
                    Some(cell) => {
                        cur.push(cell.as_bool());
                        proof {
                            assert(is_glyph(ch));
                            assert(cur@ == old_cur.push(glyph_alive(ch)));
                            assert(row_cells(prefix_lines.last().push(ch)) == old_cur.push(
                                glyph_alive(ch),
                            ));
                        }
                    },
                    None => {
                        proof {
                            assert(!is_glyph(ch));
                            assert(row_cells(prefix_lines.last().push(ch)) == old_cur);
                        }
                    },
                }
                proof {
                    let lines2 = split_lines(t@.take(p + 1 as int));
                    let lhs = views_of(rows@).push(cur@);
                    let rhs = cells_of_lines(lines2);
                    assert(rhs.len() == lines2.len());
                    assert(lhs.len() == rhs.len());
                    assert forall|m: int| 0 <= m < lhs.len() implies lhs[m] == rhs[m] by {
                        assert(rhs[m] == row_cells(lines2[m]));
                        if m < lhs.len() - 1 {
                            assert(lines2[m] == prefix_lines[m]);
                            assert(lhs[m] == old_map[m]);
                            assert(old_map[m] == cells_of_lines(prefix_lines)[m]);
                            assert(cells_of_lines(prefix_lines)[m] == row_cells(
                                prefix_lines[m],
                            ));
                        } else {
                            assert(lines2[m] == prefix_lines.last().push(ch));
                            assert(lhs[m] == cur@);
                            assert(row_cells(lines2[m]) == cur@);
                        }
                    }
                    assert(lhs =~= rhs);
                }
            }
            p += 1;
        }
        rows.push(cur);
        let ghost prows = parse_rows(s@);
        proof {
            assert(t@.take(t@.len() as int) =~= t@);
            assert(views_of(rows@) =~~= prows);
            lemma_split_lines_len(t@);
        }
        let height = rows.len();
        let mut width: usize = 0;
        let mut k: usize = 0;
        while k < height
            invariant
                k <= height,
                height == rows@.len(),
                views_of(rows@) == prows,
                width as int == max_len(prows.take(k as int)),
            decreases height - k,
        {
            proof {
                assert(prows.take(k + 1 as int) =~~= prows.take(k as int).push(prows[k as int]));
                lemma_max_len_push(prows.take(k as int), prows[k as int]);
                assert(prows[k as int] == rows@[k as int]@);
            }
            let l = rows[k].len();
            if l > width {
                width = l;
            }
            k += 1;
        }
        proof {
            assert(prows.take(prows.len() as int) =~~= prows);
            assert(width as int == parse_width(s@));
            assert(height as int == parse_height(s@));
        }
        if width == 0 {
            proof {
                lemma_max_len_nonneg(prows);
            }
            return None;
        }
        proof {
            assert(parse_width(s@) * parse_height(s@) >= parse_width(s@) && parse_width(s@)
                * parse_height(s@) >= parse_height(s@)) by (nonlinear_arith)
                requires
                    parse_width(s@) >= 1,
                    parse_height(s@) >= 1,
            ;
        }
        if width > (i32::MAX as usize) || height > (i32::MAX as usize) {
            return None;
        }
        proof {
            assert((width as int) * (height as int) <= (i32::MAX as int) * (i32::MAX as int)
                && (i32::MAX as int) * (i32::MAX as int) < 0x8000_0000_0000_0000)
                by (nonlinear_arith)
                requires
                    1 <= width as int <= i32::MAX as int,
                    1 <= height as int <= i32::MAX as int,
            ;
        }
        let prod: u64 = (width as u64) * (height as u64);
        if prod > (i32::MAX as u64) {
            return None;
        }
        let w32 = width as u32;
        let h32 = height as u32;
        let ghost wi = w32 as int;
        let ghost hi = h32 as int;
        let mut u = Universe::empty(w32, h32);
        proof {
            assert forall|rr: int, cc: int| 0 <= rr < hi && 0 <= cc < wi implies !u.at(rr, cc) by {
                lemma_index_in_range(wi, hi, rr, cc);
            }
        }
        let mut r: usize = 0;
        while r < height
            invariant
                r <= height,
                height == rows@.len(),
                height == hi,
                width == wi,
                1 <= wi,
                1 <= hi,
                wi <= i32::MAX,
                hi <= i32::MAX,
                max_len(prows) == wi,
                views_of(rows@) == prows,
                prows == parse_rows(s@),
                u.wf(),
                u.spec_width() == w32,
                u.spec_height() == h32,
                wi == w32 as int,
                hi == h32 as int,
                forall|rr: int, cc: int|
                    0 <= rr < hi && 0 <= cc < wi ==> u.at(rr, cc) == (rr < r && parse_cell(
                        s@,
                        rr,
                        cc,
                    )),
            decreases height - r,
        {
            proof {
                lemma_max_len_ge(prows, r as int);
                assert(views_of(rows@)[r as int] == rows@[r as int]@);
                assert(prows[r as int] == rows@[r as int]@);
                assert(max_len(prows) == wi);
            }
            let row_len = rows[r].len();
            let mut c: usize = 0;
            while c < row_len
                invariant
                    c <= row_len,
                    r < height,
                    height == rows@.len(),
                    height == hi,
                    width == wi,
                    1 <= wi,
                    1 <= hi,
                    wi <= i32::MAX,
                    hi <= i32::MAX,
                    max_len(prows) == wi,
                    row_len == rows@[r as int]@.len(),
                    row_len as int <= wi,
                    views_of(rows@) == prows,
                    prows == parse_rows(s@),
                    u.wf(),
                    u.spec_width() == w32,
                    u.spec_height() == h32,
                    wi == w32 as int,
                    hi == h32 as int,
                    forall|rr: int, cc: int|
                        0 <= rr < hi && 0 <= cc < wi ==> u.at(rr, cc) == ((rr < r || (rr == r
                            && cc < c)) && parse_cell(s@, rr, cc)),
                decreases row_len - c,
            {
                let alive = rows[r][c];
                let ghost before = u;
                u.set_cell(r as i32, c as i32, Cell::from_bool(alive));
                proof {
                    before.lemma_wf();
                    u.lemma_wf();
                    lemma_index_in_range(wi, hi, r as int, c as int);
                    assert(views_of(rows@)[r as int] == rows@[r as int]@);
                    assert(prows[r as int] == rows@[r as int]@);
                    assert(alive == prows[r as int][c as int]);
                    assert(prows.len() == views_of(rows@).len());
                    assert(prows.len() == hi);
                    assert(before.spec_width() == w32);
                    assert(before.spec_height() == h32);
                    assert((r as i32) as int == r as int);
                    assert((c as i32) as int == c as int);
                    assert(index_spec(wi, hi, r as int, c as int) == r * wi
                        + c);
                    assert(u.grid() == before.grid().update(
                        index_spec(wi, hi, r as int, c as int),
                        alive,
                    ));
                    assert(u.grid() == before.grid().update(r * wi + c, alive));
                    assert(parse_cell(s@, r as int, c as int) == alive);
                    assert forall|rr: int, cc: int|
                        0 <= rr < hi && 0 <= cc < wi implies u.at(rr, cc) == ((rr < r || (rr
                        == r && cc < c + 1)) && parse_cell(s@, rr, cc)) by {
                        lemma_index_in_range(wi, hi, rr, cc);
                        assert(u.grid() == before.grid().update(r * wi + c, alive));
                        assert(u.spec_width() == w32);
                        assert(before.grid().len() == wi * hi);
                        assert(u.at(rr, cc) == u.grid()[rr * wi + cc]);
                        if rr * wi + cc == r * wi + c {
                            lemma_index_injective(wi, hi, rr, cc, r as int, c as int);
                            assert(u.grid()[rr * wi + cc] == alive);
                            assert(u.at(rr, cc) == alive);
                        } else {
                            assert(u.grid()[rr * wi + cc] == before.grid()[rr * wi + cc]);
                            assert(u.at(rr, cc) == before.at(rr, cc));
                        }
                    }
                }
                c += 1;
            }
            proof {
                assert forall|rr: int, cc: int|
                    0 <= rr < hi && 0 <= cc < wi implies u.at(rr, cc) == (rr < r + 1
                    && parse_cell(s@, rr, cc)) by {
                    assert(prows[r as int] == rows@[r as int]@);
                }
            }
            r += 1;
        }
        Some(u)
    }
}

} // verus!
