//! Per-puzzle state: one candidate mask per cell, constraint propagation
//! through `assign` / `eliminate`, and depth-first search in `solve`.

use vstd::prelude::*;

use crate::board::{SudokuBoard, in_unit, is_peer, unit_cell, unit_cell_x};
use crate::board::{
    lemma_cell_units, lemma_in_unit_index, lemma_peer_unit, lemma_unit_cell, lemma_unit_cell_ne,
    lemma_unit_peers,
};
use crate::mask::{mask_count, mask_has, mask_single, mask_wf};
use crate::mask::{cells_total, FULL_MASK};
use crate::mask::{
    lemma_count_one, lemma_le, lemma_nonzero, lemma_remove, lemma_single, lemma_sub_single,
    lemma_total_le, lemma_total_lt,
};
use crate::mask::{mask_first, mask_has_x, mask_len, mask_remove_x};

verus! {

/// 81 well-formed candidate masks.
pub open spec fn cells_wf(s: Seq<u16>) -> bool {
    s.len() == 81 && forall|c: int| 0 <= c < 81 ==> mask_wf(#[trigger] s[c])
}

/// Every candidate of `a` is a candidate of `b`: propagation only narrows.
pub open spec fn cells_le(a: Seq<u16>, b: Seq<u16>) -> bool {
    a.len() == 81 && b.len() == 81 && forall|c: int, d: int|
        0 <= c < 81 && #[trigger] mask_has(a[c], d) ==> #[trigger] mask_has(b[c], d)
}

/// No cell that had candidates lost all of them.
pub open spec fn nonempty_preserved(a: Seq<u16>, b: Seq<u16>) -> bool {
    forall|c: int| 0 <= c < 81 && (#[trigger] a[c]) != 0 ==> (#[trigger] b[c]) != 0
}

/// Every cell that became a singleton on the way from `a` to `b` has had its
/// value removed from all its peers.
pub open spec fn newly_single_propagated(a: Seq<u16>, b: Seq<u16>) -> bool {
    forall|c: int, d: int, p: int|
        #![trigger is_peer(c, p), mask_single(d)]
        0 <= c < 81 && 0 <= p < 81 && 1 <= d <= 9 && b[c] == mask_single(d) && b[c] != a[c]
            && is_peer(c, p) ==> !mask_has(b[p], d)
}

/// As `newly_single_propagated`, for the single cell `k`.
pub open spec fn key_single_propagated(a: Seq<u16>, b: Seq<u16>, k: int) -> bool {
    forall|d: int, p: int|
        #![trigger is_peer(k, p), mask_single(d)]
        0 <= p < 81 && 1 <= d <= 9 && b[k] == mask_single(d) && b[k] != a[k] && is_peer(k, p)
            ==> !mask_has(b[p], d)
}

/// A complete digit grid (81 digits 1..=9).
pub open spec fn grid_wf(g: Seq<int>) -> bool {
    g.len() == 81 && forall|c: int| 0 <= c < 81 ==> 1 <= #[trigger] g[c] <= 9
}

/// Unit `u` holds digit `d` somewhere in grid `g`.
pub open spec fn unit_has_digit(g: Seq<int>, u: int, d: int) -> bool {
    exists|c: int| #[trigger] in_unit(u, c) && g[c] == d
}

/// A complete grid in which every row, column and box holds every digit
/// exactly once: peers never repeat a digit, and no unit misses one.
pub open spec fn valid_grid(g: Seq<int>) -> bool {
    &&& grid_wf(g)
    &&& forall|p: int, q: int| #[trigger] is_peer(p, q) ==> g[p] != g[q]
    &&& forall|u: int, d: int| 0 <= u < 27 && 1 <= d <= 9 ==> #[trigger] unit_has_digit(g, u, d)
}

/// Grid `g` is still possible in state `s`: each cell's digit is a candidate.
pub open spec fn admits(s: Seq<u16>, g: Seq<int>) -> bool {
    forall|c: int| 0 <= c < 81 ==> #[trigger] mask_has(s[c], g[c])
}

/// State `s` is exactly the solved grid `g`: every cell a singleton.
pub open spec fn solved_as(s: Seq<u16>, g: Seq<int>) -> bool {
    g.len() == 81 && s.len() == 81 && forall|c: int|
        0 <= c < 81 ==> (#[trigger] s[c]) == mask_single(g[c])
}

/// Digit `dgt` appears among the cells of unit `u` in the digit vector `ds`.
pub open spec fn unit_digit_found(ds: Seq<usize>, u: int, dgt: int) -> bool {
    exists|i: int| 0 <= i < 9 && (#[trigger] ds[unit_cell(u, i)]) as int == dgt
}

/// A given digit `1`..=`9` in the input line.
pub open spec fn is_given(ch: char) -> bool {
    ch == '1' || ch == '2' || ch == '3' || ch == '4' || ch == '5' || ch == '6' || ch == '7' || ch
        == '8' || ch == '9'
}

/// Characters that stand for one cell: a given digit or an explicit blank.
pub open spec fn is_token(ch: char) -> bool {
    ch == '.' || ch == '0' || is_given(ch)
}

pub open spec fn digit_val(ch: char) -> int {
    if ch == '1' {
        1
    } else if ch == '2' {
        2
    } else if ch == '3' {
        3
    } else if ch == '4' {
        4
    } else if ch == '5' {
        5
    } else if ch == '6' {
        6
    } else if ch == '7' {
        7
    } else if ch == '8' {
        8
    } else if ch == '9' {
        9
    } else {
        0
    }
}

/// The cell tokens among the first `i` characters of the line.
pub open spec fn tokens_upto(s: Seq<char>, i: int) -> Seq<char>
    decreases i,
{
    if i <= 0 {
        Seq::empty()
    } else if is_token(s[i - 1]) {
        tokens_upto(s, i - 1).push(s[i - 1])
    } else {
        tokens_upto(s, i - 1)
    }
}

/// The cell tokens of the whole line, in order.
pub open spec fn token_seq(s: Seq<char>) -> Seq<char> {
    tokens_upto(s, s.len() as int)
}

/// Grid `g` agrees with every given digit among the first 81 tokens.
pub open spec fn givens_compatible(g: Seq<int>, toks: Seq<char>) -> bool {
    forall|j: int|
        0 <= j < toks.len() && j < 81 && is_given(#[trigger] toks[j]) ==> g[j] == digit_val(
            toks[j],
        )
}

/// Two identical given digits whose cells share a unit.
pub open spec fn givens_clash(toks: Seq<char>) -> bool {
    exists|j1: int, j2: int|
        0 <= j1 < 81 && 0 <= j2 < 81 && j2 < toks.len() && j1 < toks.len() && is_given(
            #[trigger] toks[j1],
        ) && is_given(#[trigger] toks[j2]) && digit_val(toks[j1]) == digit_val(toks[j2])
            && is_peer(j1, j2)
}

/// Every solved cell's digit has been removed from all its peers.
pub open spec fn propagated(s: Seq<u16>) -> bool {
    forall|c: int, d: int, p: int|
        #![trigger is_peer(c, p), mask_single(d)]
        0 <= c < 81 && 0 <= p < 81 && 1 <= d <= 9 && s[c] == mask_single(d) && is_peer(c, p)
            ==> !mask_has(s[p], d)
}

proof fn lemma_tokens_prefix(s: Seq<char>, a: int, b: int)
    requires
        0 <= a <= b <= s.len(),
    ensures
        tokens_upto(s, a).len() <= tokens_upto(s, b).len(),
        forall|j: int|
            0 <= j < tokens_upto(s, a).len() ==> tokens_upto(s, b)[j] == #[trigger] tokens_upto(
                s,
                a,
            )[j],
    decreases b - a,
{
    if a < b {
        lemma_tokens_prefix(s, a, b - 1);
    }
}

/// Candidate count for digit `v` among the first `upto` cells of unit `u`.
pub open spec fn unit_count(s: Seq<u16>, u: int, v: int, upto: int) -> nat
    decreases upto,
{
    if upto <= 0 {
        0
    } else {
        unit_count(s, u, v, upto - 1) + if mask_has(s[unit_cell(u, upto - 1)], v) {
            1nat
        } else {
            0nat
        }
    }
}

pub proof fn lemma_admits_le(a: Seq<u16>, b: Seq<u16>, g: Seq<int>)
    requires
        cells_le(a, b),
        admits(a, g),
    ensures
        admits(b, g),
{
    assert forall|c: int| 0 <= c < 81 implies #[trigger] mask_has(b[c], g[c]) by {
        assert(mask_has(a[c], g[c]));
    }
}

pub proof fn lemma_cells_le_trans(a: Seq<u16>, b: Seq<u16>, c: Seq<u16>)
    requires
        cells_le(a, b),
        cells_le(b, c),
    ensures
        cells_le(a, c),
{
    assert forall|i: int, d: int| 0 <= i < 81 && #[trigger] mask_has(a[i], d) implies #[trigger]
    mask_has(c[i], d) by {
        assert(mask_has(b[i], d));
    }
}

pub proof fn lemma_nsp_compose(a: Seq<u16>, b: Seq<u16>, c: Seq<u16>)
    requires
        a.len() == 81 && b.len() == 81 && c.len() == 81,
        newly_single_propagated(a, b),
        newly_single_propagated(b, c),
        cells_le(c, b),
    ensures
        newly_single_propagated(a, c),
{
    assert forall|i: int, d: int, p: int|
        0 <= i < 81 && 0 <= p < 81 && 1 <= d <= 9 && c[i] == mask_single(d) && c[i] != a[i]
            && #[trigger] is_peer(i, p) && #[trigger] mask_single(d) == mask_single(
            d,
        ) implies !mask_has(c[p], d) by {
        if c[i] != b[i] {
            assert(!mask_has(c[p], d));
        } else {
            assert(b[i] == mask_single(d) && b[i] != a[i]);
            assert(!mask_has(b[p], d));
            if mask_has(c[p], d) {
                assert(mask_has(b[p], d));
            }
        }
    }
}

/// Narrowing can only lower the total candidate weight.
pub proof fn lemma_cells_le_total(a: Seq<u16>, b: Seq<u16>)
    requires
        cells_wf(a),
        cells_wf(b),
        cells_le(a, b),
    ensures
        cells_total(a) <= cells_total(b),
{
    assert forall|i: int| 0 <= i < 81 implies #[trigger] a[i] <= b[i] by {
        assert forall|d: int| #[trigger] mask_has(a[i], d) implies mask_has(b[i], d) by {}
        lemma_le(a[i], b[i]);
    }
    lemma_total_le(a, b);
}

/// Strictly, once any cell lost a candidate.
pub proof fn lemma_cells_lt_total(a: Seq<u16>, b: Seq<u16>, k: int)
    requires
        cells_wf(a),
        cells_wf(b),
        cells_le(a, b),
        0 <= k < 81,
        a[k] != b[k],
    ensures
        cells_total(a) < cells_total(b),
{
    assert forall|i: int| 0 <= i < 81 implies #[trigger] a[i] <= b[i] by {
        assert forall|d: int| #[trigger] mask_has(a[i], d) implies mask_has(b[i], d) by {}
        lemma_le(a[i], b[i]);
    }
    lemma_total_lt(a, b, k);
}

/// Mutable per-puzzle state: the candidate mask of each of the 81 cells.
pub struct Sudoku {
    pub cells: Vec<u16>,
}

impl Sudoku {
    pub open spec fn wf(&self) -> bool {
        cells_wf(self.cells@)
    }

    /// Fresh state: every digit is possible in every cell.
    pub fn new() -> (s: Sudoku)
        ensures
            s.wf(),
            forall|c: int| 0 <= c < 81 ==> s.cells@[c] == 0x03FEu16,
    {
        let mut cells: Vec<u16> = Vec::new();
        let mut i: usize = 0;
        while i < 81
            invariant
                i <= 81,
                cells@.len() == i,
                forall|c: int| 0 <= c < i ==> cells@[c] == 0x03FEu16,
            decreases 81 - i,
        {
            cells.push(FULL_MASK);
            i += 1;
        }
        proof {
            crate::mask::lemma_full();
        }
        Sudoku { cells }
    }

    /// Seed a fresh state from one input line: the characters `1`..=`9`,
    /// `0` and `.` are the cell tokens in order, everything else is a
    /// separator.  Each given digit is assigned with full propagation;
    /// `None` is returned when a given contradicts the earlier ones (or a
    /// given appears past the 81st token).
    #[verifier::loop_isolation(false)]
    #[verifier::rlimit(100)]
    pub fn from(s: &str, board: &SudokuBoard) -> (r: Option<Sudoku>)
        requires
            board.wf(),
        ensures
            match r {
                Some(st) => {
                    &&& st.wf()
                    &&& propagated(st.cells@)
                    &&& forall|c: int| 0 <= c < 81 ==> (#[trigger] st.cells@[c]) != 0
                    &&& forall|g: Seq<int>|
                        valid_grid(g) && givens_compatible(g, token_seq(s@)) ==> admits(
                            st.cells@,
                            g,
                        )
                    &&& forall|g: Seq<int>|
                        grid_wf(g) && admits(st.cells@, g) ==> givens_compatible(g, token_seq(s@))
                    &&& !givens_clash(token_seq(s@))
                },
                None => (exists|j: int|
                    81 <= j < token_seq(s@).len() && is_given(#[trigger] token_seq(s@)[j])) || (
                forall|g: Seq<int>| valid_grid(g) ==> !givens_compatible(g, token_seq(s@))),
            },
    {
        let mut st = Sudoku::new();
        proof {
            crate::mask::lemma_full();
            assert(propagated(st.cells@)) by {
                assert forall|c: int, d: int, p: int|
                    0 <= c < 81 && 0 <= p < 81 && 1 <= d <= 9 && st.cells@[c] == mask_single(d)
                        && #[trigger] is_peer(c, p) && #[trigger] mask_single(d) == mask_single(
                        d,
                    ) implies !mask_has(st.cells@[p], d) by {
                    lemma_single(d);
                    assert(mask_count(st.cells@[c]) == 9);
                }
            }
        }
        let n = s.unicode_len();
        let mut i: usize = 0;
        let mut k: usize = 0;
        while i < n
            invariant
                st.wf(),
                n == s@.len(),
                i <= n,
                k <= i,
                k as int == tokens_upto(s@, i as int).len(),
                forall|c: int| 0 <= c < 81 ==> (#[trigger] st.cells@[c]) != 0,
                propagated(st.cells@),
                forall|j: int|
                    0 <= j < k && j < 81 && is_given(#[trigger] tokens_upto(s@, i as int)[j])
                        ==> st.cells@[j] == mask_single(digit_val(tokens_upto(s@, i as int)[j])),
                forall|g: Seq<int>|
                    valid_grid(g) && #[trigger] givens_compatible(g, tokens_upto(s@, i as int))
                        ==> admits(st.cells@, g),
                forall|g: Seq<int>|
                    grid_wf(g) && #[trigger] admits(st.cells@, g) ==> givens_compatible(
                        g,
                        tokens_upto(s@, i as int),
                    ),
            decreases n - i,
        {
            let ch = s.get_char(i);
            let dg: usize = match ch {
                '1' => 1,
                '2' => 2,
                '3' => 3,
                '4' => 4,
                '5' => 5,
                '6' => 6,
                '7' => 7,
                '8' => 8,
                '9' => 9,
                '0' => 0,
                '.' => 0,
                _ => 10,
            };
            let ghost toks_i = tokens_upto(s@, i as int);
            let ghost toks_i1 = tokens_upto(s@, i as int + 1);
            proof {
                assert(s@[i as int] == ch);
                assert(dg <= 9 ==> is_token(ch));
                assert(dg > 9 ==> !is_token(ch));
                assert(1 <= dg <= 9 ==> is_given(ch) && digit_val(ch) == dg as int);
                assert(dg == 0 ==> !is_given(ch));
                assert(toks_i1 == if is_token(ch) {
                    toks_i.push(ch)
                } else {
                    toks_i
                });
            }
            if dg <= 9 {
                if dg >= 1 {
                    if k >= 81 {
                        proof {
                            lemma_tokens_prefix(s@, i as int + 1, n as int);
                            assert(toks_i1[k as int] == ch);
                            assert(tokens_upto(s@, i as int + 1)[k as int] == ch);
                            assert(token_seq(s@)[k as int] == ch);
                            assert(81 <= k as int && (k as int) < token_seq(s@).len());
                        }
                        return None;
                    }
                    let ghost pre = st.cells@;
                    let ok = st.assign(board, k, dg);
                    if !ok {
                        proof {
                            lemma_tokens_prefix(s@, i as int, n as int);
                            lemma_tokens_prefix(s@, i as int + 1, n as int);
                            assert forall|g: Seq<int>|
                                valid_grid(g) && givens_compatible(
                                    g,
                                    token_seq(s@),
                                ) implies false by {
                                assert(givens_compatible(g, toks_i)) by {
                                    assert forall|j: int|
                                        0 <= j < toks_i.len() && j < 81 && is_given(
                                            #[trigger] toks_i[j],
                                        ) implies g[j] == digit_val(toks_i[j]) by {
                                        assert(token_seq(s@)[j] == toks_i[j]);
                                    }
                                }
                                assert(admits(pre, g));
                                assert(toks_i1[k as int] == ch);
                                assert(token_seq(s@)[k as int] == ch);
                                assert(g[k as int] == dg as int);
                            }
                        }
                        return None;
                    }
                    proof {
                        assert(mask_has(pre[k as int], dg as int)) by {
                            assert(pre[k as int] != 0);
                        }
                        assert(st.cells@[k as int] == mask_single(dg as int));
                        assert forall|c: int| 0 <= c < 81 implies (#[trigger] st.cells@[c])
                            != 0 by {
                            assert(pre[c] != 0);
                        }
                        assert(propagated(st.cells@)) by {
                            assert forall|c: int, d: int, p: int|
                                0 <= c < 81 && 0 <= p < 81 && 1 <= d <= 9 && st.cells@[c]
                                    == mask_single(d) && #[trigger] is_peer(c, p) && #[trigger]
                            mask_single(d) == mask_single(d) implies !mask_has(
                                st.cells@[p],
                                d,
                            ) by {
                                if st.cells@[c] != pre[c] {
                                    assert(!mask_has(st.cells@[p], d));
                                } else {
                                    assert(!mask_has(pre[p], d));
                                    if mask_has(st.cells@[p], d) {
                                        assert(mask_has(pre[p], d));
                                    }
                                }
                            }
                        }
                        assert forall|j: int|
                            0 <= j < k + 1 && j < 81 && is_given(
                                #[trigger] toks_i1[j],
                            ) implies st.cells@[j] == mask_single(digit_val(toks_i1[j])) by {
                            if j < k {
                                assert(toks_i1[j] == toks_i[j]);
                                let dv = digit_val(toks_i[j]);
                                lemma_single(dv);
                                assert(pre[j] == mask_single(dv));
                                assert(st.cells@[j] != 0);
                                assert forall|e: int| #[trigger]
                                    mask_has(st.cells@[j], e) implies e == dv by {
                                    assert(mask_has(pre[j], e));
                                }
                                lemma_sub_single(st.cells@[j], dv);
                            } else {
                                assert(toks_i1[j] == ch);
                            }
                        }
                        assert forall|g: Seq<int>|
                            valid_grid(g) && #[trigger] givens_compatible(
                                g,
                                toks_i1,
                            ) implies admits(st.cells@, g) by {
                            assert(givens_compatible(g, toks_i)) by {
                                assert forall|j: int|
                                    0 <= j < toks_i.len() && j < 81 && is_given(
                                        #[trigger] toks_i[j],
                                    ) implies g[j] == digit_val(toks_i[j]) by {
                                    assert(toks_i1[j] == toks_i[j]);
                                }
                            }
                            assert(admits(pre, g));
                            assert(toks_i1[k as int] == ch);
                            assert(g[k as int] == dg as int);
                        }
                        assert forall|g: Seq<int>|
                            grid_wf(g) && #[trigger] admits(st.cells@, g) implies givens_compatible(
                            g,
                            toks_i1,
                        ) by {
                            lemma_admits_le(st.cells@, pre, g);
                            assert(givens_compatible(g, toks_i));
                            assert forall|j: int|
                                0 <= j < toks_i1.len() && j < 81 && is_given(
                                    #[trigger] toks_i1[j],
                                ) implies g[j] == digit_val(toks_i1[j]) by {
                                if j < k {
                                    assert(toks_i1[j] == toks_i[j]);
                                } else {
                                    assert(toks_i1[j] == ch);
                                    assert(mask_has(st.cells@[k as int], g[k as int]));
                                    lemma_single(dg as int);
                                }
                            }
                        }
                    }
                }
                if dg == 0 {
                    proof {
                        assert forall|g: Seq<int>|
                            valid_grid(g) && #[trigger] givens_compatible(
                                g,
                                toks_i1,
                            ) implies admits(st.cells@, g) by {
                            assert(givens_compatible(g, toks_i)) by {
                                assert forall|j: int|
                                    0 <= j < toks_i.len() && j < 81 && is_given(
                                        #[trigger] toks_i[j],
                                    ) implies g[j] == digit_val(toks_i[j]) by {
                                    assert(toks_i1[j] == toks_i[j]);
                                }
                            }
                        }
                        assert forall|g: Seq<int>|
                            grid_wf(g) && #[trigger] admits(st.cells@, g) implies givens_compatible(
                            g,
                            toks_i1,
                        ) by {
                            assert(givens_compatible(g, toks_i));
                            assert forall|j: int|
                                0 <= j < toks_i1.len() && j < 81 && is_given(
                                    #[trigger] toks_i1[j],
                                ) implies g[j] == digit_val(toks_i1[j]) by {
                                if j < k {
                                    assert(toks_i1[j] == toks_i[j]);
                                } else {
                                    assert(toks_i1[j] == ch);
                                }
                            }
                        }
                        assert forall|j: int|
                            0 <= j < k + 1 && j < 81 && is_given(
                                #[trigger] toks_i1[j],
                            ) implies st.cells@[j] == mask_single(digit_val(toks_i1[j])) by {
                            if j < k {
                                assert(toks_i1[j] == toks_i[j]);
                            } else {
                                assert(toks_i1[j] == ch);
                            }
                        }
                    }
                }
                k += 1;
            }
            i += 1;
        }
        proof {
            assert(tokens_upto(s@, i as int) == token_seq(s@));
            assert(!givens_clash(token_seq(s@))) by {
                if givens_clash(token_seq(s@)) {
                    let (j1, j2) = choose|j1: int, j2: int|
                        0 <= j1 < 81 && 0 <= j2 < 81 && j2 < token_seq(s@).len() && j1 < token_seq(
                            s@,
                        ).len() && is_given(#[trigger] token_seq(s@)[j1]) && is_given(
                            #[trigger] token_seq(s@)[j2],
                        ) && digit_val(token_seq(s@)[j1]) == digit_val(token_seq(s@)[j2])
                            && is_peer(j1, j2);
                    let dv = digit_val(token_seq(s@)[j1]);
                    lemma_single(dv);
                    assert(st.cells@[j1] == mask_single(dv));
                    assert(st.cells@[j2] == mask_single(dv));
                    assert(!mask_has(st.cells@[j2], dv));
                    assert(mask_has(mask_single(dv), dv));
                }
            }
        }
        Some(st)
    }

    /// An independent copy, for copy-on-branch search.
    pub fn duplicate(&self) -> (s: Sudoku)
        requires
            self.wf(),
        ensures
            s.cells@ == self.cells@,
    {
        let mut cells: Vec<u16> = Vec::new();
        let mut i: usize = 0;
        while i < 81
            invariant
                i <= 81,
                self.wf(),
                cells@.len() == i,
                forall|c: int| 0 <= c < i ==> cells@[c] == self.cells@[c],
            decreases 81 - i,
        {
            cells.push(self.cells[i]);
            i += 1;
        }
        let s = Sudoku { cells };
        proof {
            assert(s.cells@ =~= self.cells@);
        }
        s
    }

    /// The digit of a solved cell.
    pub fn uniq_val(&self, k: usize) -> (v: usize)
        requires
            self.wf(),
            k < 81,
            mask_count(self.cells@[k as int]) == 1,
        ensures
            1 <= v <= 9,
            self.cells@[k as int] == mask_single(v as int),
    {
        let m = self.cells[k];
        proof {
            assert(m != 0) by {
                if m == 0 {
                    crate::mask::lemma_zero();
                }
            }
        }
        let v = mask_first(m);
        proof {
            lemma_count_one(m, v as int);
        }
        v
    }

    /// Remove digit `v` from cell `k` and propagate the two consequences: a
    /// cell left with one candidate forces that digit out of its peers, and a
    /// digit left one place in a unit is assigned there.  A `false` result
    /// means the state admits no valid grid in which cell `k` avoids `v`.
    #[verifier::loop_isolation(false)]
    #[verifier::rlimit(100)]
    pub fn eliminate(&mut self, board: &SudokuBoard, k: usize, v: usize) -> (r: bool)
        requires
            old(self).wf(),
            board.wf(),
            k < 81,
            1 <= v <= 9,
        ensures
            final(self).wf(),
            cells_le(final(self).cells@, old(self).cells@),
            !mask_has(old(self).cells@[k as int], v as int) ==> r && final(self).cells@ == old(
                self,
            ).cells@,
            r ==> !mask_has(final(self).cells@[k as int], v as int),
            r ==> nonempty_preserved(old(self).cells@, final(self).cells@),
            r ==> newly_single_propagated(old(self).cells@, final(self).cells@),
            forall|g: Seq<int>|
                valid_grid(g) && admits(old(self).cells@, g) && g[k as int] != v as int ==> r
                    && admits(final(self).cells@, g),
        decreases cells_total(old(self).cells@), 0int,
    {
        let m = self.cells[k];
        if !mask_has_x(m, v) {
            return true;
        }
        let m2 = mask_remove_x(m, v);
        self.cells.set(k, m2);
        proof {
            lemma_remove(m, v as int);
            assert(cells_le(self.cells@, old(self).cells@));
            assert(!mask_has(self.cells@[k as int], v as int));
            lemma_cells_lt_total(self.cells@, old(self).cells@, k as int);
            assert forall|g: Seq<int>|
                valid_grid(g) && admits(old(self).cells@, g) && g[k as int]
                    != v as int implies #[trigger] admits(self.cells@, g) by {
                assert(mask_has(old(self).cells@[k as int], g[k as int]));
                assert(mask_has(self.cells@[k as int], g[k as int]));
            }
        }
        let ghost base = self.cells@;
        if m2 == 0 {
            proof {
                assert forall|g: Seq<int>|
                    valid_grid(g) && admits(old(self).cells@, g) && g[k as int]
                        != v as int implies false by {
                    assert(admits(base, g));
                    assert(mask_has(base[k as int], g[k as int]));
                    crate::mask::lemma_zero();
                }
            }
            return false;
        }
        let cnt = mask_len(m2);
        if cnt == 1 {
            let val = self.uniq_val(k);
            proof {
                lemma_single(val as int);
                assert(val != v) by {
                    assert(mask_has(base[k as int], val as int));
                }
            }
            let mut j: usize = 0;
            while j < 20
                invariant
                    self.wf(),
                    cells_le(self.cells@, base),
                    nonempty_preserved(base, self.cells@),
                    newly_single_propagated(base, self.cells@),
                    self.cells@[k as int] == mask_single(val as int),
                    j <= 20,
                    forall|t: int|
                        0 <= t < j ==> !mask_has(
                            self.cells@[(#[trigger] board.neighbors@[k as int]@[t]) as int],
                            val as int,
                        ),
                    forall|g: Seq<int>|
                        valid_grid(g) && #[trigger] admits(base, g) ==> admits(self.cells@, g),
                decreases 20 - j,
            {
                let n = board.neighbors[k][j];
                proof {
                    assert(is_peer(k as int, n as int));
                    lemma_cells_le_total(self.cells@, base);
                }
                let ghost pre = self.cells@;
                let ok = self.eliminate(board, n, val);
                if !ok {
                    proof {
                        lemma_cells_le_trans(self.cells@, pre, base);
                        lemma_cells_le_trans(self.cells@, base, old(self).cells@);
                        assert forall|g: Seq<int>|
                            valid_grid(g) && admits(old(self).cells@, g) && g[k as int]
                                != v as int implies false by {
                            assert(admits(base, g));
                            assert(admits(pre, g));
                            assert(mask_has(pre[k as int], g[k as int]));
                            assert(g[k as int] == val as int);
                            assert(g[n as int] != g[k as int]);
                        }
                    }
                    return false;
                }
                proof {
                    lemma_cells_le_trans(self.cells@, pre, base);
                    assert(nonempty_preserved(base, self.cells@)) by {
                        assert forall|c: int| 0 <= c < 81 && base[c] != 0 implies self.cells@[c]
                            != 0 by {
                            assert(pre[c] != 0);
                        }
                    }
                    lemma_nsp_compose(base, pre, self.cells@);
                    assert(self.cells@[k as int] == mask_single(val as int)) by {
                        lemma_single(val as int);
                        let nm = self.cells@[k as int];
                        assert(pre[k as int] != 0);
                        assert(nm != 0);
                        assert forall|e: int| #[trigger] mask_has(nm, e) implies e == val as int by {
                            assert(mask_has(pre[k as int], e));
                        }
                        lemma_sub_single(nm, val as int);
                    }
                    assert forall|g: Seq<int>|
                        valid_grid(g) && #[trigger] admits(base, g) implies admits(
                        self.cells@,
                        g,
                    ) by {
                        assert(admits(pre, g));
                        assert(mask_has(pre[k as int], g[k as int]));
                        assert(g[k as int] == val as int);
                        assert(g[n as int] != g[k as int]);
                    }
                }
                j += 1;
            }
            proof {
                assert(key_single_propagated(old(self).cells@, self.cells@, k as int)) by {
                    assert forall|d: int, p: int|
                        0 <= p < 81 && 1 <= d <= 9 && self.cells@[k as int] == mask_single(d)
                            && self.cells@[k as int] != old(self).cells@[k as int] && #[trigger]
                        is_peer(k as int, p) && #[trigger] mask_single(d) == mask_single(
                            d,
                        ) implies !mask_has(self.cells@[p], d) by {
                        lemma_single(d);
                        assert(mask_single(d) == mask_single(val as int));
                        assert(mask_has(mask_single(d), d));
                        assert(d == val as int);
                        let t = choose|t: int|
                            0 <= t < 20 && (#[trigger] board.neighbors@[k as int]@[t]) as int == p;
                        assert(!mask_has(self.cells@[p], val as int));
                    }
                }
            }
        } else {
            proof {
                assert(key_single_propagated(old(self).cells@, self.cells@, k as int)) by {
                    lemma_single(v as int);
                    assert forall|d: int|
                        1 <= d <= 9 implies self.cells@[k as int] != mask_single(d) by {
                        lemma_single(d);
                        if self.cells@[k as int] == mask_single(d) {
                            assert(mask_count(base[k as int]) == 1);
                        }
                    }
                }
            }
        }
        let mut t: usize = 0;
        while t < 3
            invariant
                self.wf(),
                cells_le(self.cells@, base),
                nonempty_preserved(base, self.cells@),
                newly_single_propagated(base, self.cells@),
                key_single_propagated(old(self).cells@, self.cells@, k as int),
                !mask_has(self.cells@[k as int], v as int),
                t <= 3,
                forall|g: Seq<int>|
                    valid_grid(g) && #[trigger] admits(base, g) ==> admits(self.cells@, g),
            decreases 3 - t,
        {
            let u = board.units_for[k][t];
            proof {
                lemma_cell_units(k as int);
                assert(in_unit(u as int, k as int));
            }
            let ghost cur = self.cells@;
            let mut cnt2: usize = 0;
            let mut pos: usize = 0;
            let mut i: usize = 0;
            while i < 9
                invariant
                    u < 27,
                    i <= 9,
                    cnt2 <= i,
                    self.cells@ == cur,
                    cnt2 as int == unit_count(cur, u as int, v as int, i as int),
                    cnt2 == 0 ==> forall|idx: int|
                        0 <= idx < i ==> !mask_has(
                            cur[#[trigger] unit_cell(u as int, idx)],
                            v as int,
                        ),
                    cnt2 >= 1 ==> pos < 81 && in_unit(u as int, pos as int) && mask_has(
                        cur[pos as int],
                        v as int,
                    ),
                    cnt2 == 1 ==> forall|idx: int|
                        0 <= idx < i && mask_has(cur[#[trigger] unit_cell(u as int, idx)], v as int)
                            ==> unit_cell(u as int, idx) == pos as int,
                decreases 9 - i,
            {
                let cell = board.units[u][i];
                proof {
                    lemma_unit_cell(u as int, i as int);
                }
                if mask_has_x(self.cells[cell], v) {
                    cnt2 += 1;
                    pos = cell;
                }
                i += 1;
            }
            if cnt2 == 0 {
                proof {
                    lemma_cells_le_trans(self.cells@, base, old(self).cells@);
                    assert forall|g: Seq<int>|
                        valid_grid(g) && admits(old(self).cells@, g) && g[k as int]
                            != v as int implies false by {
                        assert(admits(base, g));
                        assert(admits(cur, g));
                        assert(unit_has_digit(g, u as int, v as int));
                        let c = choose|c: int| #[trigger] in_unit(u as int, c) && g[c] == v as int;
                        lemma_in_unit_index(u as int, c);
                        let idx = choose|idx: int| 0 <= idx < 9 && unit_cell(u as int, idx) == c;
                        assert(mask_has(cur[c], v as int));
                    }
                }
                return false;
            }
            if cnt2 == 1 {
                proof {
                    lemma_cells_le_total(self.cells@, base);
                    lemma_cells_lt_total(base, old(self).cells@, k as int);
                }
                let ghost pre = self.cells@;
                let ok = self.assign(board, pos, v);
                if !ok {
                    proof {
                        lemma_cells_le_trans(self.cells@, pre, base);
                        lemma_cells_le_trans(self.cells@, base, old(self).cells@);
                        assert forall|g: Seq<int>|
                            valid_grid(g) && admits(old(self).cells@, g) && g[k as int]
                                != v as int implies false by {
                            assert(admits(base, g));
                            assert(admits(pre, g));
                            assert(unit_has_digit(g, u as int, v as int));
                            let c = choose|c: int|
                                #[trigger] in_unit(u as int, c) && g[c] == v as int;
                            lemma_in_unit_index(u as int, c);
                            let idx = choose|idx: int|
                                0 <= idx < 9 && unit_cell(u as int, idx) == c;
                            assert(mask_has(pre[c], v as int));
                            assert(c == pos as int);
                        }
                    }
                    return false;
                }
                proof {
                    lemma_cells_le_trans(self.cells@, pre, base);
                    assert(nonempty_preserved(base, self.cells@)) by {
                        assert forall|c: int| 0 <= c < 81 && base[c] != 0 implies self.cells@[c]
                            != 0 by {
                            assert(pre[c] != 0);
                        }
                    }
                    lemma_nsp_compose(base, pre, self.cells@);
                    assert(key_single_propagated(old(self).cells@, self.cells@, k as int)) by {
                        assert forall|d: int, p: int|
                            0 <= p < 81 && 1 <= d <= 9 && self.cells@[k as int] == mask_single(d)
                                && self.cells@[k as int] != old(self).cells@[k as int] && #[trigger]
                            is_peer(k as int, p) && #[trigger] mask_single(d) == mask_single(
                                d,
                            ) implies !mask_has(self.cells@[p], d) by {
                            if self.cells@[k as int] != pre[k as int] {
                                assert(!mask_has(self.cells@[p], d));
                            } else {
                                assert(pre[k as int] == mask_single(d));
                                if pre[k as int] != old(self).cells@[k as int] {
                                    assert(!mask_has(pre[p], d));
                                    if mask_has(self.cells@[p], d) {
                                        assert(mask_has(pre[p], d));
                                    }
                                }
                            }
                        }
                    }
                    assert forall|g: Seq<int>|
                        valid_grid(g) && #[trigger] admits(base, g) implies admits(
                        self.cells@,
                        g,
                    ) by {
                        assert(admits(pre, g));
                        assert(unit_has_digit(g, u as int, v as int));
                        let c = choose|c: int| #[trigger] in_unit(u as int, c) && g[c] == v as int;
                        lemma_in_unit_index(u as int, c);
                        let idx = choose|idx: int| 0 <= idx < 9 && unit_cell(u as int, idx) == c;
                        assert(mask_has(pre[c], v as int));
                        assert(c == pos as int);
                    }
                }
            }
            t += 1;
        }
        proof {
            lemma_cells_le_trans(self.cells@, base, old(self).cells@);
            assert(nonempty_preserved(old(self).cells@, self.cells@)) by {
                assert forall|c: int| 0 <= c < 81 && old(self).cells@[c] != 0 implies
                    self.cells@[c] != 0 by {
                    assert(base[c] != 0);
                }
            }
            assert(newly_single_propagated(old(self).cells@, self.cells@)) by {
                assert forall|c: int, d: int, p: int|
                    0 <= c < 81 && 0 <= p < 81 && 1 <= d <= 9 && self.cells@[c] == mask_single(d)
                        && self.cells@[c] != old(self).cells@[c] && #[trigger] is_peer(c, p)
                        && #[trigger] mask_single(d) == mask_single(d) implies !mask_has(
                    self.cells@[p],
                    d,
                ) by {
                    if c == k as int {
                        assert(key_single_propagated(old(self).cells@, self.cells@, k as int));
                    } else {
                        assert(base[c] == old(self).cells@[c]);
                    }
                }
            }
            assert forall|g: Seq<int>|
                valid_grid(g) && admits(old(self).cells@, g) && g[k as int]
                    != v as int implies admits(self.cells@, g) by {
                assert(admits(base, g));
            }
        }
        true
    }

    /// Narrow cell `k` to exactly the digit `v` by eliminating every other
    /// digit; succeeds iff all the eliminations succeed.
    #[verifier::loop_isolation(false)]
    #[verifier::rlimit(100)]
    pub fn assign(&mut self, board: &SudokuBoard, k: usize, v: usize) -> (r: bool)
        requires
            old(self).wf(),
            board.wf(),
            k < 81,
            1 <= v <= 9,
        ensures
            final(self).wf(),
            cells_le(final(self).cells@, old(self).cells@),
            r ==> nonempty_preserved(old(self).cells@, final(self).cells@),
            r ==> newly_single_propagated(old(self).cells@, final(self).cells@),
            r && mask_has(old(self).cells@[k as int], v as int) ==> final(self).cells@[k as int]
                == mask_single(v as int),
            r && mask_has(old(self).cells@[k as int], v as int) && old(self).cells@[k as int]
                != mask_single(v as int) ==> forall|p: int|
                0 <= p < 81 && #[trigger] is_peer(k as int, p) ==> !mask_has(
                    final(self).cells@[p],
                    v as int,
                ),
            r && mask_has(old(self).cells@[k as int], v as int) && propagated(old(self).cells@)
                ==> forall|p: int|
                0 <= p < 81 && #[trigger] is_peer(k as int, p) ==> !mask_has(
                    final(self).cells@[p],
                    v as int,
                ),
            !mask_has(old(self).cells@[k as int], v as int) && old(self).cells@[k as int] != 0
                ==> !r,
            forall|g: Seq<int>|
                valid_grid(g) && admits(old(self).cells@, g) && g[k as int] == v as int ==> r
                    && admits(final(self).cells@, g),
        decreases cells_total(old(self).cells@), 1int,
    {
        let mut d: usize = 1;
        while d <= 9
            invariant
                self.wf(),
                cells_le(self.cells@, old(self).cells@),
                nonempty_preserved(old(self).cells@, self.cells@),
                newly_single_propagated(old(self).cells@, self.cells@),
                1 <= d <= 10,
                forall|e: int|
                    1 <= e < d && e != v as int ==> !(#[trigger] mask_has(
                        self.cells@[k as int],
                        e,
                    )),
                forall|g: Seq<int>|
                    valid_grid(g) && #[trigger] admits(old(self).cells@, g) && g[k as int]
                        == v as int ==> admits(self.cells@, g),
            decreases 10 - d,
        {
            if d != v {
                proof {
                    lemma_cells_le_total(self.cells@, old(self).cells@);
                }
                let ghost pre = self.cells@;
                let ok = self.eliminate(board, k, d);
                if !ok {
                    proof {
                        lemma_cells_le_trans(self.cells@, pre, old(self).cells@);
                        assert forall|g: Seq<int>|
                            valid_grid(g) && admits(old(self).cells@, g) && g[k as int]
                                == v as int implies false by {
                            assert(admits(pre, g));
                            assert(g[k as int] != d as int);
                        }
                    }
                    return false;
                }
                proof {
                    lemma_cells_le_trans(self.cells@, pre, old(self).cells@);
                    assert(nonempty_preserved(old(self).cells@, self.cells@)) by {
                        assert forall|c: int|
                            0 <= c < 81 && old(self).cells@[c] != 0 implies self.cells@[c]
                            != 0 by {
                            assert(pre[c] != 0);
                        }
                    }
                    lemma_nsp_compose(old(self).cells@, pre, self.cells@);
                    assert forall|e: int|
                        1 <= e < d + 1 && e != v as int implies !(#[trigger] mask_has(
                        self.cells@[k as int],
                        e,
                    )) by {
                        if e == d as int {
                            assert(!mask_has(self.cells@[k as int], d as int));
                        } else {
                            if mask_has(self.cells@[k as int], e) {
                                assert(mask_has(pre[k as int], e));
                            }
                        }
                    }
                }
            }
            d += 1;
        }
        proof {
            let fin2 = self.cells@[k as int];
            assert forall|e: int| #[trigger] mask_has(fin2, e) implies e == v as int by {
                assert(1 <= e <= 9);
            }
            if mask_has(old(self).cells@[k as int], v as int) {
                assert(old(self).cells@[k as int] != 0) by {
                    if old(self).cells@[k as int] == 0 {
                        crate::mask::lemma_zero();
                    }
                }
                assert(fin2 != 0);
                lemma_sub_single(fin2, v as int);
                assert(fin2 == mask_single(v as int));
                if old(self).cells@[k as int] != mask_single(v as int) {
                    assert forall|p: int|
                        0 <= p < 81 && #[trigger] is_peer(k as int, p) implies !mask_has(
                        self.cells@[p],
                        v as int,
                    ) by {
                        lemma_single(v as int);
                        assert(newly_single_propagated(old(self).cells@, self.cells@));
                    }
                } else if propagated(old(self).cells@) {
                    assert forall|p: int|
                        0 <= p < 81 && #[trigger] is_peer(k as int, p) implies !mask_has(
                        self.cells@[p],
                        v as int,
                    ) by {
                        lemma_single(v as int);
                        assert(!mask_has(old(self).cells@[p], v as int));
                        if mask_has(self.cells@[p], v as int) {
                            assert(mask_has(old(self).cells@[p], v as int));
                        }
                    }
                }
            } else {
                if old(self).cells@[k as int] != 0 {
                    assert(fin2 != 0);
                    lemma_nonzero(fin2);
                    let e = choose|e: int| mask_has(fin2, e);
                    assert(e == v as int);
                    assert(mask_has(old(self).cells@[k as int], v as int));
                }
            }
        }
        true
    }

    /// The state is solved: every cell holds exactly one digit and the digit
    /// grid satisfies every row, column and box constraint.
    #[verifier::loop_isolation(false)]
    #[verifier::rlimit(100)]
    pub fn is_solved(&self) -> (b: bool)
        requires
            self.wf(),
        ensures
            b == exists|g: Seq<int>| valid_grid(g) && solved_as(self.cells@, g),
    {
        let mut ds: Vec<usize> = Vec::new();
        let mut c: usize = 0;
        while c < 81
            invariant
                c <= 81,
                ds@.len() == c,
                forall|cc: int|
                    0 <= cc < c ==> 1 <= (#[trigger] ds@[cc]) as int <= 9 && self.cells@[cc]
                        == mask_single(ds@[cc] as int),
            decreases 81 - c,
        {
            let m = self.cells[c];
            if mask_len(m) != 1 {
                proof {
                    assert forall|g: Seq<int>|
                        valid_grid(g) && solved_as(self.cells@, g) implies false by {
                        lemma_single(g[c as int]);
                    }
                }
                return false;
            }
            let v = self.uniq_val(c);
            ds.push(v);
            c += 1;
        }
        let ghost gw = Seq::new(81, |cc: int| ds@[cc] as int);
        let mut u: usize = 0;
        while u < 27
            invariant
                u <= 27,
                ds@.len() == 81,
                forall|cc: int|
                    0 <= cc < 81 ==> 1 <= (#[trigger] ds@[cc]) as int <= 9 && self.cells@[cc]
                        == mask_single(ds@[cc] as int),
                forall|uu: int, a: int, bb: int|
                    0 <= uu < u && 0 <= a < 9 && 0 <= bb < 9 && a != bb ==> (#[trigger] ds@[
                        unit_cell(uu, a)
                    ]) != (#[trigger] ds@[unit_cell(uu, bb)]),
                forall|uu: int, dgt: int|
                    0 <= uu < u && 1 <= dgt <= 9 ==> #[trigger] unit_digit_found(ds@, uu, dgt),
            decreases 27 - u,
        {
            let mut a: usize = 0;
            while a < 9
                invariant
                    a <= 9,
                    forall|x: int, y: int|
                        0 <= x < a && 0 <= y < 9 && x != y ==> (#[trigger] ds@[unit_cell(
                            u as int,
                            x,
                        )]) != (#[trigger] ds@[unit_cell(u as int, y)]),
                decreases 9 - a,
            {
                let ca = unit_cell_x(u, a);
                let mut bb: usize = a + 1;
                while bb < 9
                    invariant
                        a < 9,
                        a + 1 <= bb <= 9,
                        ca as int == unit_cell(u as int, a as int),
                        forall|y: int|
                            a < y < bb ==> ds@[ca as int] != (#[trigger] ds@[unit_cell(
                                u as int,
                                y,
                            )]),
                    decreases 9 - bb,
                {
                    let cb = unit_cell_x(u, bb);
                    if ds[ca] == ds[cb] {
                        proof {
                            assert forall|g: Seq<int>|
                                valid_grid(g) && solved_as(self.cells@, g) implies false by {
                                lemma_unit_cell(u as int, a as int);
                                lemma_unit_cell(u as int, bb as int);
                                lemma_unit_cell_ne(u as int, a as int, bb as int);
                                lemma_unit_peers(
                                    u as int,
                                    unit_cell(u as int, a as int),
                                    unit_cell(u as int, bb as int),
                                );
                                lemma_single(g[ca as int]);
                                lemma_single(g[cb as int]);
                                assert(mask_has(self.cells@[ca as int], g[ca as int]));
                                assert(g[ca as int] == ds@[ca as int]);
                                assert(g[cb as int] == ds@[cb as int]);
                            }
                        }
                        return false;
                    }
                    bb += 1;
                }
                proof {
                    assert forall|x: int, y: int|
                        0 <= x < a + 1 && 0 <= y < 9 && x != y implies (#[trigger] ds@[unit_cell(
                        u as int,
                        x,
                    )]) != (#[trigger] ds@[unit_cell(u as int, y)]) by {
                        if x == a as int {
                            if y < x {
                                assert(ds@[unit_cell(u as int, y)] != ds@[unit_cell(u as int, x)]);
                            }
                        }
                    }
                }
                a += 1;
            }
            let mut dgt: usize = 1;
            while dgt <= 9
                invariant
                    1 <= dgt <= 10,
                    forall|dd: int| 1 <= dd < dgt ==> unit_digit_found(ds@, u as int, dd),
                decreases 10 - dgt,
            {
                let mut found = false;
                let mut i: usize = 0;
                while i < 9
                    invariant
                        i <= 9,
                        found ==> unit_digit_found(ds@, u as int, dgt as int),
                        !found ==> forall|ii: int|
                            0 <= ii < i ==> (#[trigger] ds@[unit_cell(u as int, ii)]) as int
                                != dgt as int,
                    decreases 9 - i,
                {
                    let cc = unit_cell_x(u, i);
                    if ds[cc] == dgt {
                        found = true;
                        proof {
                            assert(ds@[unit_cell(u as int, i as int)] as int == dgt as int);
                        }
                    }
                    i += 1;
                }
                if !found {
                    proof {
                        assert forall|g: Seq<int>|
                            valid_grid(g) && solved_as(self.cells@, g) implies false by {
                            assert(unit_has_digit(g, u as int, dgt as int));
                            let cw = choose|cw: int|
                                #[trigger] in_unit(u as int, cw) && g[cw] == dgt as int;
                            lemma_in_unit_index(u as int, cw);
                            let iw = choose|iw: int|
                                0 <= iw < 9 && unit_cell(u as int, iw) == cw;
                            lemma_single(g[cw]);
                            lemma_single(ds@[cw] as int);
                            assert(self.cells@[cw] == mask_single(g[cw]));
                            assert(mask_has(mask_single(ds@[cw] as int), g[cw]));
                            assert(g[cw] == ds@[cw] as int);
                            assert((ds@[unit_cell(u as int, iw)]) as int != dgt as int);
                        }
                    }
                    return false;
                }
                dgt += 1;
            }
            u += 1;
        }
        proof {
            assert(grid_wf(gw));
            assert(solved_as(self.cells@, gw));
            assert(valid_grid(gw)) by {
                assert forall|p: int, q: int| #[trigger] is_peer(p, q) implies gw[p] != gw[q] by {
                    lemma_peer_unit(p, q);
                    let uu = choose|uu: int| #[trigger] in_unit(uu, p) && in_unit(uu, q);
                    lemma_in_unit_index(uu, p);
                    lemma_in_unit_index(uu, q);
                    let a = choose|a: int| 0 <= a < 9 && unit_cell(uu, a) == p;
                    let bq = choose|bq: int| 0 <= bq < 9 && unit_cell(uu, bq) == q;
                    assert(a != bq);
                    assert(ds@[unit_cell(uu, a)] != ds@[unit_cell(uu, bq)]);
                }
                assert forall|uu: int, dd: int|
                    0 <= uu < 27 && 1 <= dd <= 9 implies #[trigger] unit_has_digit(
                    gw,
                    uu,
                    dd,
                ) by {
                    assert(unit_digit_found(ds@, uu, dd));
                    let iw = choose|iw: int|
                        0 <= iw < 9 && (#[trigger] ds@[unit_cell(uu, iw)]) as int == dd;
                    lemma_unit_cell(uu, iw);
                    assert(in_unit(uu, unit_cell(uu, iw)) && gw[unit_cell(uu, iw)] == dd);
                }
            }
        }
        true
    }

    /// The first unsolved cell with the fewest remaining candidates, or
    /// `None` when every cell is down to at most one candidate.
    #[verifier::loop_isolation(false)]
    pub fn smaller_cell(&self) -> (r: Option<usize>)
        requires
            self.wf(),
        ensures
            match r {
                Some(k) => k < 81 && mask_count(self.cells@[k as int]) >= 2 && (forall|c: int|
                    0 <= c < 81 && mask_count(#[trigger] self.cells@[c]) >= 2 ==> mask_count(
                        self.cells@[k as int],
                    ) <= mask_count(self.cells@[c])) && (forall|c: int|
                    0 <= c < k ==> mask_count(#[trigger] self.cells@[c]) < 2 || mask_count(
                        self.cells@[c],
                    ) > mask_count(self.cells@[k as int])),
                None => forall|c: int| 0 <= c < 81 ==> mask_count(#[trigger] self.cells@[c]) <= 1,
            },
    {
        let mut found = false;
        let mut bk: usize = 0;
        let mut bl: usize = 10;
        let mut c: usize = 0;
        while c < 81
            invariant
                c <= 81,
                found ==> bk < c && bl == mask_count(self.cells@[bk as int]) && bl >= 2,
                found ==> forall|cc: int|
                    0 <= cc < c && mask_count(#[trigger] self.cells@[cc]) >= 2 ==> bl <= mask_count(
                        self.cells@[cc],
                    ),
                found ==> forall|cc: int|
                    0 <= cc < bk ==> mask_count(#[trigger] self.cells@[cc]) < 2 || mask_count(
                        self.cells@[cc],
                    ) > bl,
                !found ==> forall|cc: int|
                    0 <= cc < c ==> mask_count(#[trigger] self.cells@[cc]) <= 1,
            decreases 81 - c,
        {
            let l = mask_len(self.cells[c]);
            if l >= 2 && (!found || l < bl) {
                found = true;
                bk = c;
                bl = l;
            }
            c += 1;
        }
        if found {
            Some(bk)
        } else {
            None
        }
    }

    /// Depth-first search with copy-on-branch: pick the unsolved cell with
    /// the fewest candidates, try its digits in ascending order on a copy,
    /// and return the first solved refinement, or `None` when the state
    /// admits no valid grid.
    #[verifier::loop_isolation(false)]
    #[verifier::rlimit(100)]
    pub fn solve(&self, board: &SudokuBoard) -> (r: Option<Sudoku>)
        requires
            self.wf(),
            board.wf(),
        ensures
            match r {
                Some(s) => s.wf() && exists|g: Seq<int>|
                    valid_grid(g) && solved_as(s.cells@, g) && admits(self.cells@, g),
                None => forall|g: Seq<int>| valid_grid(g) ==> !admits(self.cells@, g),
            },
        decreases cells_total(self.cells@),
    {
        if self.is_solved() {
            let s = self.duplicate();
            proof {
                let g = choose|g: Seq<int>| valid_grid(g) && solved_as(self.cells@, g);
                assert forall|c: int| 0 <= c < 81 implies #[trigger] mask_has(
                    self.cells@[c],
                    g[c],
                ) by {
                    lemma_single(g[c]);
                }
                assert(valid_grid(g) && solved_as(s.cells@, g) && admits(self.cells@, g));
            }
            return Some(s);
        }
        match self.smaller_cell() {
            None => {
                proof {
                    assert forall|g: Seq<int>| valid_grid(g) implies !admits(self.cells@, g) by {
                        if admits(self.cells@, g) {
                            assert forall|c: int| 0 <= c < 81 implies (#[trigger] self.cells@[c])
                                == mask_single(g[c]) by {
                                assert(mask_has(self.cells@[c], g[c]));
                                crate::mask::lemma_has_count(self.cells@[c], g[c]);
                                lemma_count_one(self.cells@[c], g[c]);
                            }
                            assert(solved_as(self.cells@, g));
                        }
                    }
                }
                None
            },
            Some(k) => {
                let m = self.cells[k];
                let mut v: usize = 1;
                while v <= 9
                    invariant
                        1 <= v <= 10,
                        forall|g: Seq<int>|
                            valid_grid(g) && #[trigger] admits(self.cells@, g) ==> g[k as int]
                                >= v as int,
                    decreases 10 - v,
                {
                    if mask_has_x(m, v) {
                        let mut s2 = self.duplicate();
                        let ghost start = s2.cells@;
                        let ok = s2.assign(board, k, v);
                        if ok {
                            proof {
                                assert(s2.cells@[k as int] == mask_single(v as int));
                                assert(self.cells@[k as int] != mask_single(v as int)) by {
                                    lemma_single(v as int);
                                }
                                assert(cells_le(s2.cells@, self.cells@));
                                lemma_cells_lt_total(s2.cells@, self.cells@, k as int);
                            }
                            let sub = s2.solve(board);
                            match sub {
                                Some(sol) => {
                                    proof {
                                        let g = choose|g: Seq<int>|
                                            valid_grid(g) && solved_as(sol.cells@, g) && admits(
                                                s2.cells@,
                                                g,
                                            );
                                        lemma_admits_le(s2.cells@, self.cells@, g);
                                        assert(valid_grid(g) && solved_as(sol.cells@, g) && admits(
                                            self.cells@,
                                            g,
                                        ));
                                    }
                                    return Some(sol);
                                },
                                None => {
                                    proof {
                                        assert forall|g: Seq<int>|
                                            valid_grid(g) && #[trigger] admits(
                                                self.cells@,
                                                g,
                                            ) implies g[k as int] >= v as int + 1 by {
                                            if g[k as int] == v as int {
                                                assert(admits(start, g));
                                                assert(admits(s2.cells@, g));
                                            }
                                        }
                                    }
                                },
                            }
                        } else {
                            proof {
                                assert forall|g: Seq<int>|
                                    valid_grid(g) && #[trigger] admits(
                                        self.cells@,
                                        g,
                                    ) implies g[k as int] >= v as int + 1 by {
                                    if g[k as int] == v as int {
                                        assert(admits(start, g));
                                    }
                                }
                            }
                        }
                    } else {
                        proof {
                            assert forall|g: Seq<int>|
                                valid_grid(g) && #[trigger] admits(
                                    self.cells@,
                                    g,
                                ) implies g[k as int] >= v as int + 1 by {
                                if g[k as int] == v as int {
                                    assert(mask_has(self.cells@[k as int], v as int));
                                }
                            }
                        }
                    }
                    v += 1;
                }
                proof {
                    assert forall|g: Seq<int>| valid_grid(g) implies !admits(self.cells@, g) by {
                        if admits(self.cells@, g) {
                            assert(g[k as int] >= 10);
                        }
                    }
                }
                None
            },
        }
    }
}

} // verus!
