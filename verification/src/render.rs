//! Formatting of a puzzle state as a printable grid: each cell shows its
//! remaining candidate digits in ascending order ("0" when none are left),
//! left-aligned in a field one wider than the widest cell, with `| ` column
//! separators and dashed row separators after the third and sixth line.

use vstd::prelude::*;

use crate::mask::{mask_count, mask_count_below, mask_has, mask_len, mask_has_x};
use crate::solver::Sudoku;

verus! {

pub open spec fn digit_char(d: int) -> char {
    if d == 1 {
        '1'
    } else if d == 2 {
        '2'
    } else if d == 3 {
        '3'
    } else if d == 4 {
        '4'
    } else if d == 5 {
        '5'
    } else if d == 6 {
        '6'
    } else if d == 7 {
        '7'
    } else if d == 8 {
        '8'
    } else if d == 9 {
        '9'
    } else {
        '0'
    }
}

/// The candidate digits of `m` below digit `d`, in ascending order.
pub open spec fn mask_digits_below(m: u16, d: int) -> Seq<char>
    decreases d,
{
    if d <= 1 {
        Seq::empty()
    } else if mask_has(m, d - 1) {
        mask_digits_below(m, d - 1).push(digit_char(d - 1))
    } else {
        mask_digits_below(m, d - 1)
    }
}

/// What one cell prints: its candidates in ascending order, or "0".
pub open spec fn cell_text(m: u16) -> Seq<char> {
    if m == 0 {
        seq!['0']
    } else {
        mask_digits_below(m, 10)
    }
}

pub open spec fn repeat_char(ch: char, n: int) -> Seq<char>
    decreases n,
{
    if n <= 0 {
        Seq::empty()
    } else {
        repeat_char(ch, n - 1).push(ch)
    }
}

/// Width of the widest cell text plus one.
pub open spec fn width_below(s: Seq<u16>, c: int) -> int
    decreases c,
{
    if c <= 0 {
        0
    } else {
        let w = mask_count(s[c - 1]) + 1 as int;
        if w > width_below(s, c - 1) {
            w
        } else {
            width_below(s, c - 1)
        }
    }
}

pub open spec fn grid_width(s: Seq<u16>) -> int {
    width_below(s, 81)
}

/// A cell text left-aligned in a field of width `w`.
pub open spec fn padded_cell(m: u16, w: int) -> Seq<char> {
    cell_text(m) + repeat_char(' ', w - cell_text(m).len())
}

/// The first `j` cells of row `r`, with `| ` before columns 3 and 6.
pub open spec fn row_text(s: Seq<u16>, r: int, j: int, w: int) -> Seq<char>
    decreases j,
{
    if j <= 0 {
        Seq::empty()
    } else {
        let sep: Seq<char> = if j - 1 == 3 || j - 1 == 6 {
            seq!['|', ' ']
        } else {
            Seq::empty()
        };
        row_text(s, r, j - 1, w) + sep + padded_cell(s[r * 9 + (j - 1)], w)
    }
}

/// The dashed separator line between bands of rows.
pub open spec fn band_line(w: int) -> Seq<char> {
    repeat_char('-', 3 * w) + seq!['+', '-'] + repeat_char('-', 3 * w) + seq!['+', '-']
        + repeat_char('-', 3 * w) + seq!['\n']
}

/// The first `r` rows of the grid, with separator lines before rows 3 and 6.
pub open spec fn grid_text_upto(s: Seq<u16>, r: int, w: int) -> Seq<char>
    decreases r,
{
    if r <= 0 {
        Seq::empty()
    } else {
        let sep: Seq<char> = if r - 1 == 3 || r - 1 == 6 {
            band_line(w)
        } else {
            Seq::empty()
        };
        grid_text_upto(s, r - 1, w) + sep + row_text(s, r - 1, 9, w) + seq!['\n']
    }
}

/// The whole printable grid, ending in a blank line.
pub open spec fn render(s: Seq<u16>) -> Seq<char> {
    grid_text_upto(s, 9, grid_width(s)) + seq!['\n']
}

proof fn lemma_digits_below_len(m: u16, d: int)
    requires
        1 <= d <= 10,
    ensures
        mask_digits_below(m, d).len() == mask_count_below(m, d),
    decreases d,
{
    if d > 1 {
        lemma_digits_below_len(m, d - 1);
    }
}

/// Relies on `String::from_iter` (via `Iterator::collect`): the resulting
/// string holds exactly the given characters, in order.
#[verifier::external_body]
fn chars_to_string(v: &Vec<char>) -> (r: String)
    ensures
        r@ == v@,
{
    v.iter().collect()
}

fn push_repeat(out: &mut Vec<char>, ch: char, cnt: usize)
    ensures
        final (out)@ == old(out)@ + repeat_char(ch, cnt as int),
{
    let mut t: usize = 0;
    while t < cnt
        invariant
            t <= cnt,
            out@ == old(out)@ + repeat_char(ch, t as int),
        decreases cnt - t,
    {
        out.push(ch);
        t += 1;
    }
    proof {
        assert(out@ =~= old(out)@ + repeat_char(ch, cnt as int));
    }
}

fn digit_char_x(d: usize) -> (c: char)
    requires
        1 <= d <= 9,
    ensures
        c == digit_char(d as int),
{
    match d {
        1 => '1',
        2 => '2',
        3 => '3',
        4 => '4',
        5 => '5',
        6 => '6',
        7 => '7',
        8 => '8',
        _ => '9',
    }
}

fn push_cell_text(out: &mut Vec<char>, m: u16)
    ensures
        final (out)@ == old(out)@ + cell_text(m),
{
    if m == 0 {
        out.push('0');
        proof {
            assert(out@ =~= old(out)@ + cell_text(m));
        }
        return ;
    }
    let mut d: usize = 1;
    while d <= 9
        invariant
            m != 0,
            1 <= d <= 10,
            out@ == old(out)@ + mask_digits_below(m, d as int),
        decreases 10 - d,
    {
        if mask_has_x(m, d) {
            out.push(digit_char_x(d));
        }
        proof {
            assert(out@ =~= old(out)@ + mask_digits_below(m, d as int + 1));
        }
        d += 1;
    }
}

fn push_band(out: &mut Vec<char>, w: usize)
    requires
        w <= 10,
    ensures
        final (out)@ == old(out)@ + band_line(w as int),
{
    push_repeat(out, '-', 3 * w);
    out.push('+');
    out.push('-');
    push_repeat(out, '-', 3 * w);
    out.push('+');
    out.push('-');
    push_repeat(out, '-', 3 * w);
    out.push('\n');
    proof {
        assert(out@ =~= old(out)@ + band_line(w as int));
    }
}

/// One cell text, left-aligned in a field of width `w`.
fn push_padded(out: &mut Vec<char>, m: u16, w: usize)
    requires
        w <= 10,
    ensures
        final (out)@ == old(out)@ + padded_cell(m, w as int),
{
    push_cell_text(out, m);
    let tl = if m == 0 {
        1
    } else {
        mask_len(m)
    };
    proof {
        if m != 0 {
            lemma_digits_below_len(m, 10);
            crate::mask::lemma_count_below_full(m);
        }
        assert(tl as int == cell_text(m).len());
    }
    let pad = if w > tl {
        w - tl
    } else {
        0
    };
    push_repeat(out, ' ', pad);
    proof {
        assert(repeat_char(' ', pad as int) =~= repeat_char(' ', w as int - cell_text(m).len()));
        assert(out@ =~= old(out)@ + padded_cell(m, w as int));
    }
}

/// One full row, with its column separators.
fn push_row(out: &mut Vec<char>, cells: &Vec<u16>, rr: usize, w: usize)
    requires
        cells@.len() == 81,
        rr < 9,
        w <= 10,
    ensures
        final (out)@ == old(out)@ + row_text(cells@, rr as int, 9, w as int),
{
    let mut j: usize = 0;
    while j < 9
        invariant
            j <= 9,
            rr < 9,
            w <= 10,
            cells@.len() == 81,
            out@ == old(out)@ + row_text(cells@, rr as int, j as int, w as int),
        decreases 9 - j,
    {
        if j == 3 || j == 6 {
            out.push('|');
            out.push(' ');
        }
        let m = cells[rr * 9 + j];
        push_padded(out, m, w);
        proof {
            assert(out@ =~= old(out)@ + row_text(cells@, rr as int, j as int + 1, w as int));
        }
        j += 1;
    }
}

impl Sudoku {
    /// The printable grid of this state.
    #[verifier::loop_isolation(false)]
    #[verifier::rlimit(100)]
    pub fn to_grid_string(&self) -> (r: String)
        requires
            self.wf(),
        ensures
            r@ == render(self.cells@),
    {
        let ghost s = self.cells@;
        let mut w: usize = 0;
        let mut c: usize = 0;
        while c < 81
            invariant
                c <= 81,
                w as int == width_below(s, c as int),
                w <= 10,
            decreases 81 - c,
        {
            let l = mask_len(self.cells[c]);
            if l + 1 > w {
                w = l + 1;
            }
            c += 1;
        }
        let mut out: Vec<char> = Vec::new();
        let mut rr: usize = 0;
        while rr < 9
            invariant
                rr <= 9,
                w as int == grid_width(s),
                w <= 10,
                out@ == grid_text_upto(s, rr as int, w as int),
            decreases 9 - rr,
        {
            if rr == 3 || rr == 6 {
                push_band(&mut out, w);
            }
            push_row(&mut out, &self.cells, rr, w);
            out.push('\n');
            proof {
                assert(out@ =~= grid_text_upto(s, rr as int + 1, w as int));
            }
            rr += 1;
        }
        out.push('\n');
        proof {
            assert(out@ =~= render(s));
        }
        chars_to_string(&out)
    }
}

} // verus!
