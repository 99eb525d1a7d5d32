//! Overlaying textual patterns onto an existing grid, and the preset
//! constructor built on it.
//!
//! The insert alphabet differs from the parse alphabet of
//! [`crate::text`]: space, `0` and `_` denote a dead cell and every
//! other character an alive one. Lines are right-trimmed of carriage
//! returns only, and cells are written through the toroidal index, so a
//! pattern may wrap around the grid edges.

use vstd::prelude::*;

use vstd::string::StrSliceExecFns;

use crate::cell::Cell;
use crate::text::{
    lemma_split_lines_count,
    lemma_split_lines_len,
    lemma_split_lines_line_len,
    lemma_split_lines_push,
    split_lines,
};
use crate::universe::{index_spec, lemma_index_wrapped, Universe};

verus! {

/// Whether an insert-pattern character denotes an alive cell: space,
/// `0` and `_` denote dead, every other character alive.
pub open spec fn insert_alive(ch: char) -> bool {
    !(ch == ' ' || ch == '0' || ch == '_')
}

/// A line with one trailing carriage return removed, and no other
/// normalization.
pub open spec fn strip_cr(line: Seq<char>) -> Seq<char> {
    if line.len() > 0 && line.last() == '\r' {
        line.drop_last()
    } else {
        line
    }
}

/// The lines of an insert pattern: the text split at newlines, each
/// line right-trimmed of a carriage return.
pub open spec fn insert_lines(p: Seq<char>) -> Seq<Seq<char>> {
    split_lines(p).map_values(|line: Seq<char>| strip_cr(line))
}

/// The views of a list of line vectors.
pub open spec fn line_views(lines: Seq<Vec<char>>) -> Seq<Seq<char>> {
    lines.map_values(|line: Vec<char>| line@)
}

/// Grid `g` after one pattern line is written cell by cell, left to
/// right, starting at wrapped coordinate `(r, c)`.
pub open spec fn overlay_line(
    g: Seq<bool>,
    w: int,
    h: int,
    r: int,
    c: int,
    line: Seq<char>,
) -> Seq<bool>
    decreases line.len(),
{
    if line.len() == 0 {
        g
    } else {
        overlay_line(
            g.update(index_spec(w, h, r, c), insert_alive(line[0])),
            w,
            h,
            r,
            c + 1,
            line.drop_first(),
        )
    }
}

/// Grid `g` after a whole pattern is written line by line, top to
/// bottom, its top-left corner at wrapped coordinate `(r, c)`.
pub open spec fn overlay(
    g: Seq<bool>,
    w: int,
    h: int,
    r: int,
    c: int,
    lines: Seq<Seq<char>>,
) -> Seq<bool>
    decreases lines.len(),
{
    if lines.len() == 0 {
        g
    } else {
        overlay(overlay_line(g, w, h, r, c, lines[0]), w, h, r + 1, c, lines.drop_first())
    }
}

/// The glider: a small pattern that travels diagonally across the
/// grid, written in the insert alphabet.
pub open spec fn glider_pattern() -> Seq<char> {
    seq![' ', '*', ' ', '\n', ' ', ' ', '*', '\n', '*', '*', '*']
}

/// Whether an insert-pattern character denotes an alive cell.
fn is_insert_alive(ch: char) -> (b: bool)
    ensures
        b == insert_alive(ch),
{
    ch != ' ' && ch != '0' && ch != '_'
}

impl Universe {
    /// Writes the pattern's cells into the grid, its top-left corner at
    /// `(row, column)`, through the toroidal index, so the pattern may
    /// wrap around the grid edges. Every cell not written keeps its
    /// state, and the dimensions never change.
    pub fn insert_from_text(&mut self, row: i32, column: i32, pattern: &str)
        requires
            old(self).wf(),
            pattern@.len() <= i32::MAX,
        ensures
            final(self).wf(),
            final(self).spec_width() == old(self).spec_width(),
            final(self).spec_height() == old(self).spec_height(),
            final(self).grid() == overlay(
                old(self).grid(),
                old(self).spec_width() as int,
                old(self).spec_height() as int,
                row as int,
                column as int,
                insert_lines(pattern@),
            ),
    {
        let ghost wi = self.spec_width() as int;
        let ghost hi = self.spec_height() as int;
        let ghost g0 = self.grid();
        let ghost lns = insert_lines(pattern@);
        proof {
            self.lemma_wf();
            assert(wi <= i32::MAX && hi <= i32::MAX) by (nonlinear_arith)
                requires
                    1 <= wi,
                    1 <= hi,
                    wi * hi <= i32::MAX,
            ;
        }
        let n = pattern.unicode_len();
        let mut chars: Vec<char> = Vec::new();
        let mut i: usize = 0;
        while i < n
            invariant
                i <= n,
                n == pattern@.len(),
                chars@ == pattern@.take(i as int),
            decreases n - i,
        {
            let ch = pattern.get_char(i);
            chars.push(ch);
            proof {
                assert(chars@ =~= pattern@.take(i + 1 as int));
            }
            i += 1;
        }
        proof {
            assert(chars@ =~= pattern@);
        }
        let mut lines: Vec<Vec<char>> = Vec::new();
        let mut cur: Vec<char> = Vec::new();
        let mut p: usize = 0;
        while p < chars.len()
            invariant
                p <= chars@.len(),
                chars@ == pattern@,
                line_views(lines@).push(cur@) == split_lines(chars@.take(p as int)),
            decreases chars@.len() - p,
        {
            let ch = chars[p];
            let ghost old_map = line_views(lines@);
            let ghost old_cur = cur@;
            let ghost prefix_lines = split_lines(chars@.take(p as int));
            proof {
                assert(chars@.take(p as int).push(ch) =~= chars@.take(p + 1 as int));
                lemma_split_lines_len(chars@.take(p as int));
                lemma_split_lines_push(chars@.take(p as int), ch);
                assert(old_map.push(old_cur) == prefix_lines);
                assert(old_map.len() == prefix_lines.len() - 1);
            }
            if ch == '\n' {
                lines.push(cur);
                cur = Vec::new();
                proof {
                    assert(line_views(lines@) =~~= old_map.push(old_cur));
                    assert(cur@ =~= Seq::<char>::empty());
                    assert(line_views(lines@).push(cur@) =~~= split_lines(
                        chars@.take(p + 1 as int),
                    ));
                }
            } else {
                cur.push(ch);
                proof {
                    assert(cur@ == old_cur.push(ch));
                    assert(old_cur == prefix_lines.last());
                    assert(line_views(lines@).push(cur@) =~~= split_lines(
                        chars@.take(p + 1 as int),
                    ));
                }
            }
            p += 1;
        }
        lines.push(cur);
        proof {
            assert(chars@.take(chars@.len() as int) =~= chars@);
            assert(line_views(lines@) =~~= split_lines(pattern@));
            lemma_split_lines_count(pattern@);
            assert forall|m: int| 0 <= m < lns.len() implies lns[m] == strip_cr(
                lines@[m]@,
            ) by {
                assert(lns[m] == strip_cr(split_lines(pattern@)[m]));
                assert(split_lines(pattern@)[m] == lines@[m]@);
            }
            assert forall|m: int| 0 <= m < lns.len() implies lines@[m]@.len()
                <= pattern@.len() by {
                assert(split_lines(pattern@)[m] == lines@[m]@);
                lemma_split_lines_line_len(pattern@, m);
            }
            assert(lns.len() == lines@.len());
        }
        let ghost target = overlay(g0, wi, hi, row as int, column as int, lns);
        proof {
            assert(lns.skip(0) =~~= lns);
        }
        let mut li: usize = 0;
        while li < lines.len()
            invariant
                li <= lines@.len(),
                lines@.len() == lns.len(),
                lines@.len() <= pattern@.len() + 1,
                pattern@.len() <= i32::MAX,
                forall|m: int| 0 <= m < lns.len() ==> lns[m] == strip_cr(lines@[m]@),
                forall|m: int| 0 <= m < lns.len() ==> lines@[m]@.len() <= pattern@.len(),
                self.wf(),
                1 <= wi,
                1 <= hi,
                wi <= i32::MAX,
                hi <= i32::MAX,
                wi == self.spec_width(),
                hi == self.spec_height(),
                overlay(self.grid(), wi, hi, row as int + li, column as int, lns.skip(li as int))
                    == target,
            decreases lines@.len() - li,
        {
            let line = &lines[li];
            let mut elen = line.len();
            if elen > 0 && line[elen - 1] == '\r' {
                elen = elen - 1;
            }
            let ghost stripped = strip_cr(line@);
            let ghost rline = row as int + li;
            let ghost line_start = self.grid();
            proof {
                assert(stripped =~= line@.take(elen as int));
                assert(stripped.skip(0) =~= stripped);
                assert(lns.skip(li as int)[0] == lns[li as int]);
                assert(lns.skip(li as int).drop_first() =~= lns.skip(li as int + 1));
            }
            let mut j: usize = 0;
            while j < elen
                invariant
                    j <= elen,
                    li < lines@.len(),
                    lines@.len() <= pattern@.len() + 1,
                    line@ == lines@[li as int]@,
                    elen <= lines@[li as int]@.len(),
                    lines@[li as int]@.len() <= pattern@.len(),
                    pattern@.len() <= i32::MAX,
                    stripped == strip_cr(lines@[li as int]@),
                    stripped.len() == elen,
                    stripped =~= lines@[li as int]@.take(elen as int),
                    rline == row as int + li,
                    self.wf(),
                    1 <= wi,
                    1 <= hi,
                    wi <= i32::MAX,
                    hi <= i32::MAX,
                    wi == self.spec_width(),
                    hi == self.spec_height(),
                    overlay_line(self.grid(), wi, hi, rline, column as int + j, stripped.skip(j as int))
                        == overlay_line(line_start, wi, hi, rline, column as int, stripped),
                decreases elen - j,
            {
                let ch = line[j];
                let alive = is_insert_alive(ch);
                let rw64 = (row as i64 + li as i64).checked_rem_euclid(self.height() as i64).unwrap();
                let cw64 = (column as i64 + j as i64).checked_rem_euclid(self.width() as i64).unwrap();
                let ghost before = self.grid();
                proof {
                    vstd::arithmetic::div_mod::lemma_mod_bound(rline, hi);
                    vstd::arithmetic::div_mod::lemma_mod_bound(column as int + j, wi);
                    lemma_index_wrapped(wi, hi, rline, column as int + j);
                    vstd::arithmetic::div_mod::lemma_small_mod((rline % hi) as nat, hi as nat);
                    vstd::arithmetic::div_mod::lemma_small_mod(
                        ((column as int + j) % wi) as nat,
                        wi as nat,
                    );
                }
                self.set_cell(rw64 as i32, cw64 as i32, Cell::from_bool(alive));
                proof {
                    assert(stripped.skip(j as int)[0] == stripped[j as int]);
                    assert(ch == stripped[j as int]);
                    assert(stripped.skip(j as int).drop_first() =~= stripped.skip(j as int + 1));
                    assert(self.grid() == before.update(
                        index_spec(wi, hi, rline, column as int + j),
                        insert_alive(stripped[j as int]),
                    ));
                }
                j += 1;
            }
            proof {
                assert(stripped.skip(elen as int) =~= Seq::<char>::empty());
                assert(overlay_line(
                    self.grid(),
                    wi,
                    hi,
                    rline,
                    column as int + elen,
                    stripped.skip(elen as int),
                ) == self.grid());
                assert(overlay_line(line_start, wi, hi, rline, column as int, stripped)
                    == self.grid());
                assert(lns.skip(li as int)[0] == stripped);
                assert(lns.skip(li as int).drop_first() =~= lns.skip(li as int + 1));
                assert(overlay(line_start, wi, hi, rline, column as int, lns.skip(li as int))
                    == overlay(
                    self.grid(),
                    wi,
                    hi,
                    rline + 1,
                    column as int,
                    lns.skip(li as int + 1),
                ));
            }
            li += 1;
        }
        proof {
            assert(lns.skip(lns.len() as int) =~~= Seq::<Seq<char>>::empty());
            assert(overlay(self.grid(), wi, hi, row as int + lns.len(), column as int, lns.skip(lns.len() as int))
                == self.grid());
        }
    }

    /// An all-dead grid of the given dimensions with a glider overlaid
    /// near its center.
    pub fn with_preset(width: u32, height: u32) -> (u: Universe)
        requires
            1 <= width,
            1 <= height,
            width * height <= i32::MAX,
        ensures
            u.wf(),
            u.spec_width() == width,
            u.spec_height() == height,
            u.grid() == overlay(
                Seq::new((width * height) as nat, |i: int| false),
                width as int,
                height as int,
                height as int / 2 - 1,
                width as int / 2 - 1,
                insert_lines(glider_pattern()),
            ),
    {
        let mut u = Universe::empty(width, height);
        proof {
            assert(width as int <= i32::MAX && height as int <= i32::MAX) by (nonlinear_arith)
                requires
                    1 <= width as int,
                    1 <= height as int,
                    width as int * height as int <= i32::MAX,
            ;
            reveal_strlit(" * \n  *\n***");
            assert((" * \n  *\n***")@ =~= glider_pattern());
        }
        let r0 = (height / 2) as i32 - 1;
        let c0 = (width / 2) as i32 - 1;
        u.insert_from_text(r0, c0, " * \n  *\n***");
        u
    }
}

} // verus!
