//! Static topology of the 9x9 board: 27 units (9 rows, 9 columns, 9 boxes),
//! the three units owning each cell, and the 20 peers of each cell.

use vstd::prelude::*;

verus! {

pub open spec fn is_cell(c: int) -> bool {
    0 <= c < 81
}

pub open spec fn row_of(c: int) -> int {
    c / 9
}

pub open spec fn col_of(c: int) -> int {
    c % 9
}

pub open spec fn block_of(c: int) -> int {
    (c / 9) / 3 * 3 + (c % 9) / 3
}

/// Cell `c` belongs to unit `u` (units 0..9 are rows, 9..18 columns,
/// 18..27 boxes).
pub open spec fn in_unit(u: int, c: int) -> bool {
    is_cell(c) && 0 <= u < 27 && if u < 9 {
        row_of(c) == u
    } else if u < 18 {
        col_of(c) == u - 9
    } else {
        block_of(c) == u - 18
    }
}

/// Two distinct cells sharing a row, column or box.
pub open spec fn is_peer(c: int, p: int) -> bool {
    is_cell(c) && is_cell(p) && c != p && (row_of(c) == row_of(p) || col_of(c) == col_of(p)
        || block_of(c) == block_of(p))
}

/// The `i`-th cell of unit `u`, in ascending cell order.
pub open spec fn unit_cell(u: int, i: int) -> int {
    if u < 9 {
        u * 9 + i
    } else if u < 18 {
        i * 9 + (u - 9)
    } else {
        ((u - 18) / 3 * 3 + i / 3) * 9 + ((u - 18) % 3 * 3 + i % 3)
    }
}

pub proof fn lemma_cell_ids(c: int)
    requires
        is_cell(c),
    ensures
        c == row_of(c) * 9 + col_of(c),
        0 <= row_of(c) < 9,
        0 <= col_of(c) < 9,
        0 <= block_of(c) < 9,
        block_of(c) == row_of(c) / 3 * 3 + col_of(c) / 3,
{
}

/// Each listed member of a unit is a cell of that unit.
pub proof fn lemma_unit_cell(u: int, i: int)
    requires
        0 <= u < 27,
        0 <= i < 9,
    ensures
        is_cell(unit_cell(u, i)),
        in_unit(u, unit_cell(u, i)),
        u < 9 ==> row_of(unit_cell(u, i)) == u && col_of(unit_cell(u, i)) == i,
        9 <= u < 18 ==> row_of(unit_cell(u, i)) == i && col_of(unit_cell(u, i)) == u - 9,
        u >= 18 ==> row_of(unit_cell(u, i)) == (u - 18) / 3 * 3 + i / 3 && col_of(unit_cell(u, i))
            == (u - 18) % 3 * 3 + i % 3,
{
    let c = unit_cell(u, i);
    if u < 9 {
        assert(c == u * 9 + i);
    } else if u < 18 {
        assert(c == i * 9 + (u - 9));
    } else {
        let b = u - 18;
        let r = b / 3 * 3 + i / 3;
        let cl = b % 3 * 3 + i % 3;
        assert(0 <= b / 3 <= 2);
        assert(0 <= i / 3 <= 2);
        assert(0 <= b % 3 <= 2);
        assert(0 <= i % 3 <= 2);
        assert(c == r * 9 + cl);
        assert(row_of(c) == r);
        assert(col_of(c) == cl);
        assert(r / 3 == b / 3);
        assert(cl / 3 == b % 3);
        assert(block_of(c) == b);
    }
}

/// Each cell of a unit is listed, at a computable position.
pub proof fn lemma_in_unit_index(u: int, c: int)
    requires
        in_unit(u, c),
    ensures
        exists|i: int| 0 <= i < 9 && unit_cell(u, i) == c,
{
    lemma_cell_ids(c);
    if u < 9 {
        let i = col_of(c);
        assert(unit_cell(u, i) == c);
    } else if u < 18 {
        let i = row_of(c);
        assert(unit_cell(u, i) == c);
    } else {
        let b = u - 18;
        let i = (row_of(c) - b / 3 * 3) * 3 + (col_of(c) - b % 3 * 3);
        assert(row_of(c) / 3 == b / 3 && col_of(c) / 3 == b % 3);
        assert(b / 3 * 3 <= row_of(c) < b / 3 * 3 + 3);
        assert(b % 3 * 3 <= col_of(c) < b % 3 * 3 + 3);
        assert(0 <= i < 9);
        assert(i / 3 == row_of(c) - b / 3 * 3);
        assert(i % 3 == col_of(c) - b % 3 * 3);
        assert(unit_cell(u, i) == c);
    }
}

/// Distinct positions in a unit are distinct cells.
pub proof fn lemma_unit_cell_ne(u: int, i: int, j: int)
    requires
        0 <= u < 27,
        0 <= i < 9,
        0 <= j < 9,
        i != j,
    ensures
        unit_cell(u, i) != unit_cell(u, j),
{
    lemma_unit_cell(u, i);
    lemma_unit_cell(u, j);
    if u >= 18 {
        let ci = unit_cell(u, i);
        let cj = unit_cell(u, j);
        if ci == cj {
            assert(i / 3 == j / 3 && i % 3 == j % 3);
            assert(i == i / 3 * 3 + i % 3);
        }
    }
}

/// Distinct cells of one unit are peers.
pub proof fn lemma_unit_peers(u: int, p: int, q: int)
    requires
        in_unit(u, p),
        in_unit(u, q),
        p != q,
    ensures
        is_peer(p, q),
{
}

/// Peers share at least one unit.
pub proof fn lemma_peer_unit(c: int, p: int)
    requires
        is_peer(c, p),
    ensures
        exists|u: int| #[trigger] in_unit(u, c) && in_unit(u, p),
{
    lemma_cell_ids(c);
    lemma_cell_ids(p);
    if row_of(c) == row_of(p) {
        assert(in_unit(row_of(c), c) && in_unit(row_of(c), p));
    } else if col_of(c) == col_of(p) {
        assert(in_unit(9 + col_of(c), c) && in_unit(9 + col_of(c), p));
    } else {
        assert(in_unit(18 + block_of(c), c) && in_unit(18 + block_of(c), p));
    }
}

/// The three units that own a cell.
pub proof fn lemma_cell_units(c: int)
    requires
        is_cell(c),
    ensures
        in_unit(row_of(c), c),
        in_unit(9 + col_of(c), c),
        in_unit(18 + block_of(c), c),
        0 <= row_of(c) < 9,
        9 <= 9 + col_of(c) < 18,
        18 <= 18 + block_of(c) < 27,
{
    lemma_cell_ids(c);
}

proof fn lemma_push_contains(s: Seq<usize>, x: usize)
    ensures
        forall|y: usize| s.contains(y) ==> #[trigger] s.push(x).contains(y),
        s.push(x).contains(x),
{
    assert forall|y: usize| s.contains(y) implies #[trigger] s.push(x).contains(y) by {
        let t = choose|t: int| 0 <= t < s.len() && s[t] == y;
        assert(s.push(x)[t] == y);
    }
    assert(s.push(x)[s.len() as int] == x);
}

proof fn lemma_push_no_dup(s: Seq<usize>, x: usize)
    requires
        s.no_duplicates(),
        !s.contains(x),
    ensures
        s.push(x).no_duplicates(),
{
    let t = s.push(x);
    assert forall|i: int, j: int| 0 <= i < j < t.len() implies t[i] != t[j] by {
        if j == s.len() {
            assert(t[i] == s[i]);
            if s[i] == x {
                assert(s.contains(x));
            }
        }
    }
}

/// The fixed board topology, computed once and shared read-only.
pub struct SudokuBoard {
    pub units: Vec<Vec<usize>>,
    pub units_for: Vec<Vec<usize>>,
    pub neighbors: Vec<Vec<usize>>,
}

impl SudokuBoard {
    /// Well-formed topology: 27 units of 9 cells each, in ascending order
    /// given by `unit_cell`; per cell its row, column and box unit; per cell
    /// the list of exactly its 20 peers, without duplicates.
    pub open spec fn wf(&self) -> bool {
        &&& self.units@.len() == 27
        &&& forall|u: int| 0 <= u < 27 ==> (#[trigger] self.units@[u])@.len() == 9
        &&& forall|u: int, i: int|
            0 <= u < 27 && 0 <= i < 9 ==> (#[trigger] self.units@[u]@[i]) as int == unit_cell(u, i)
        &&& self.units_for@.len() == 81
        &&& forall|c: int| 0 <= c < 81 ==> (#[trigger] self.units_for@[c])@.len() == 3
        &&& forall|c: int|
            0 <= c < 81 ==> (#[trigger] self.units_for@[c])@[0] as int == row_of(c)
                && self.units_for@[c]@[1] as int == 9 + col_of(c) && self.units_for@[c]@[2] as int
                == 18 + block_of(c)
        &&& self.neighbors@.len() == 81
        &&& forall|c: int| 0 <= c < 81 ==> (#[trigger] self.neighbors@[c])@.len() == 20
        &&& forall|c: int| 0 <= c < 81 ==> (#[trigger] self.neighbors@[c])@.no_duplicates()
        &&& forall|c: int, j: int|
            0 <= c < 81 && 0 <= j < 20 ==> is_peer(c, (#[trigger] self.neighbors@[c]@[j]) as int)
        &&& forall|c: int, p: int|
            #[trigger] is_peer(c, p) ==> exists|j: int|
                0 <= j < 20 && (#[trigger] self.neighbors@[c]@[j]) as int == p
    }
}

/// The `i`-th cell of unit `u`.
pub fn unit_cell_x(u: usize, i: usize) -> (c: usize)
    requires
        u < 27,
        i < 9,
    ensures
        c as int == unit_cell(u as int, i as int),
        c < 81,
{
    proof {
        lemma_unit_cell(u as int, i as int);
    }
    if u < 9 {
        u * 9 + i
    } else if u < 18 {
        i * 9 + (u - 9)
    } else {
        let b = u - 18;
        (b / 3 * 3 + i / 3) * 9 + (b % 3 * 3 + i % 3)
    }
}

/// The 20 peers of cell `c`: 8 in its row, 8 in its column, and the 4 box
/// cells outside both.
#[verifier::rlimit(100)]
fn peers_of(c: usize) -> (v: Vec<usize>)
    requires
        c < 81,
    ensures
        v@.len() == 20,
        v@.no_duplicates(),
        forall|t: int| 0 <= t < 20 ==> is_peer(c as int, (#[trigger] v@[t]) as int),
        forall|p: int|
            #[trigger] is_peer(c as int, p) ==> exists|t: int| 0 <= t < 20 && (#[trigger] v@[t]) as int == p,
{
    let r = c / 9;
    let cl = c % 9;
    proof {
        lemma_cell_ids(c as int);
    }
    let mut v: Vec<usize> = Vec::new();
    let mut j: usize = 0;
    while j < 9
        invariant
            c < 81,
            r == c / 9,
            cl == c % 9,
            j <= 9,
            v@.len() == if j <= cl {
                j as int
            } else {
                j - 1
            },
            forall|t: int|
                0 <= t < v@.len() ==> is_cell((#[trigger] v@[t]) as int) && row_of(v@[t] as int)
                    == r && col_of(v@[t] as int) < j && col_of(v@[t] as int) != cl,
            forall|jj: int|
                0 <= jj < j && jj != cl ==> v@.contains(#[trigger] ((r as int * 9 + jj) as usize)),
            v@.no_duplicates(),
        decreases 9 - j,
    {
        if j != cl {
            let x = r * 9 + j;
            proof {
                lemma_cell_ids(x as int);
                assert(row_of(x as int) == r && col_of(x as int) == j as int);
                assert(!v@.contains(x)) by {
                    if v@.contains(x) {
                        let t = choose|t: int| 0 <= t < v@.len() && v@[t] == x;
                        assert(col_of(v@[t] as int) < j);
                    }
                }
                lemma_push_no_dup(v@, x);
                lemma_push_contains(v@, x);
            }
            v.push(x);
        }
        j += 1;
    }
    assert(v@.len() == 8);
    let mut i: usize = 0;
    while i < 9
        invariant
            c < 81,
            r == c / 9,
            cl == c % 9,
            i <= 9,
            v@.len() == 8 + if i <= r {
                i as int
            } else {
                i - 1
            },
            forall|t: int|
                0 <= t < 8 ==> is_cell((#[trigger] v@[t]) as int) && row_of(v@[t] as int) == r
                    && col_of(v@[t] as int) != cl,
            forall|jj: int|
                0 <= jj < 9 && jj != cl ==> v@.contains(#[trigger] ((r as int * 9 + jj) as usize)),
            forall|t: int|
                8 <= t < v@.len() ==> is_cell((#[trigger] v@[t]) as int) && col_of(v@[t] as int)
                    == cl && row_of(v@[t] as int) != r && row_of(v@[t] as int) < i,
            forall|ii: int|
                0 <= ii < i && ii != r ==> v@.contains(#[trigger] ((ii * 9 + cl as int) as usize)),
            v@.no_duplicates(),
        decreases 9 - i,
    {
        if i != r {
            let x = i * 9 + cl;
            proof {
                lemma_cell_ids(x as int);
                assert(row_of(x as int) == i as int && col_of(x as int) == cl as int);
                assert(!v@.contains(x)) by {
                    if v@.contains(x) {
                        let t = choose|t: int| 0 <= t < v@.len() && v@[t] == x;
                        if t < 8 {
                            assert(row_of(v@[t] as int) == r);
                        } else {
                            assert(row_of(v@[t] as int) < i);
                        }
                    }
                }
                lemma_push_no_dup(v@, x);
                lemma_push_contains(v@, x);
            }
            v.push(x);
        }
        i += 1;
    }
    assert(v@.len() == 16);
    let br = r / 3 * 3;
    let bc = cl / 3 * 3;
    let r1 = if r == br {
        br + 1
    } else {
        br
    };
    let r2 = if r >= br + 2 {
        br + 1
    } else {
        br + 2
    };
    let c1 = if cl == bc {
        bc + 1
    } else {
        bc
    };
    let c2 = if cl >= bc + 2 {
        bc + 1
    } else {
        bc + 2
    };
    assert(br <= r < br + 3 && bc <= cl < bc + 3);
    assert(br <= r1 < r2 < br + 3 && r1 != r && r2 != r);
    assert(bc <= c1 < c2 < bc + 3 && c1 != cl && c2 != cl);
    let x1 = r1 * 9 + c1;
    let x2 = r1 * 9 + c2;
    let x3 = r2 * 9 + c1;
    let x4 = r2 * 9 + c2;
    proof {
        lemma_cell_ids(x1 as int);
        lemma_cell_ids(x2 as int);
        lemma_cell_ids(x3 as int);
        lemma_cell_ids(x4 as int);
        assert(row_of(x1 as int) == r1 && col_of(x1 as int) == c1);
        assert(row_of(x2 as int) == r1 && col_of(x2 as int) == c2);
        assert(row_of(x3 as int) == r2 && col_of(x3 as int) == c1);
        assert(row_of(x4 as int) == r2 && col_of(x4 as int) == c2);
        assert(r1 / 3 == r / 3 && r2 / 3 == r / 3 && c1 / 3 == cl / 3 && c2 / 3 == cl / 3);
    }
    let ghost w16 = v@;
    proof {
        block_push_fresh(w16, x1, r as int, cl as int);
        lemma_push_no_dup(w16, x1);
        lemma_push_contains(w16, x1);
    }
    v.push(x1);
    proof {
        block_push_fresh(w16, x2, r as int, cl as int);
        assert(v@ == w16.push(x1));
        assert(!v@.contains(x2)) by {
            if v@.contains(x2) {
                let t = choose|t: int| 0 <= t < v@.len() && v@[t] == x2;
                if t < 16 {
                    assert(w16.contains(x2)) by {
                        assert(w16[t] == x2);
                    }
                }
            }
        }
        lemma_push_no_dup(v@, x2);
        lemma_push_contains(v@, x2);
    }
    v.push(x2);
    proof {
        block_push_fresh(w16, x3, r as int, cl as int);
        assert(v@ == w16.push(x1).push(x2));
        assert(!v@.contains(x3)) by {
            if v@.contains(x3) {
                let t = choose|t: int| 0 <= t < v@.len() && v@[t] == x3;
                if t < 16 {
                    assert(w16.contains(x3)) by {
                        assert(w16[t] == x3);
                    }
                }
            }
        }
        lemma_push_no_dup(v@, x3);
        lemma_push_contains(v@, x3);
    }
    v.push(x3);
    proof {
        block_push_fresh(w16, x4, r as int, cl as int);
        assert(v@ == w16.push(x1).push(x2).push(x3));
        assert(!v@.contains(x4)) by {
            if v@.contains(x4) {
                let t = choose|t: int| 0 <= t < v@.len() && v@[t] == x4;
                if t < 16 {
                    assert(w16.contains(x4)) by {
                        assert(w16[t] == x4);
                    }
                }
            }
        }
        lemma_push_no_dup(v@, x4);
        lemma_push_contains(v@, x4);
    }
    v.push(x4);
    proof {
        let cc = c as int;
        assert(forall|t: int| 0 <= t < 16 ==> v@[t] == #[trigger] w16[t]);
        assert(v@[16] == x1 && v@[17] == x2 && v@[18] == x3 && v@[19] == x4);
        assert forall|t: int| 0 <= t < 20 implies is_peer(cc, (#[trigger] v@[t]) as int) by {
            let p = v@[t] as int;
            lemma_cell_ids(p);
            if t < 8 {
                assert(row_of(p) == row_of(cc) && col_of(p) != col_of(cc));
            } else if t < 16 {
                assert(col_of(p) == col_of(cc) && row_of(p) != row_of(cc));
            } else {
                assert(row_of(p) / 3 == row_of(cc) / 3 && col_of(p) / 3 == col_of(cc) / 3);
                assert(block_of(p) == block_of(cc));
                assert(row_of(p) != row_of(cc));
            }
        }
        assert forall|p: int| #[trigger] is_peer(cc, p) implies exists|t: int|
            0 <= t < 20 && (#[trigger] v@[t]) as int == p by {
            lemma_cell_ids(p);
            lemma_cell_ids(cc);
            let y: usize = if row_of(p) == r as int {
                ((r as int * 9 + col_of(p)) as usize)
            } else if col_of(p) == cl as int {
                ((row_of(p) * 9 + cl as int) as usize)
            } else {
                ((row_of(p) * 9 + col_of(p)) as usize)
            };
            if row_of(p) == r as int {
                assert(col_of(p) != cl as int);
                assert(v@.contains(y));
            } else if col_of(p) == cl as int {
                assert(v@.contains(y));
            } else {
                assert(block_of(p) == block_of(cc));
                assert(row_of(p) / 3 * 3 + col_of(p) / 3 == r as int / 3 * 3 + cl as int / 3);
                assert(0 <= col_of(p) / 3 <= 2 && 0 <= cl as int / 3 <= 2);
                assert(row_of(p) / 3 == r as int / 3 && col_of(p) / 3 == cl as int / 3);
                assert(br <= row_of(p) < br + 3 && bc <= col_of(p) < bc + 3);
                assert(row_of(p) == r1 as int || row_of(p) == r2 as int);
                assert(col_of(p) == c1 as int || col_of(p) == c2 as int);
                assert(y == x1 || y == x2 || y == x3 || y == x4);
                assert(v@.contains(y));
            }
            assert(y as int == p);
            let t = choose|t: int| 0 <= t < v@.len() && v@[t] == y;
            assert(0 <= t < 20 && v@[t] as int == p);
        }
    }
    v
}

/// A cell whose row and column both differ from cell (`r`, `cl`)'s is not
/// among its 16 row and column peers.
proof fn block_push_fresh(w: Seq<usize>, x: usize, r: int, cl: int)
    requires
        w.len() == 16,
        forall|t: int| 0 <= t < 8 ==> row_of((#[trigger] w[t]) as int) == r,
        forall|t: int| 8 <= t < 16 ==> col_of((#[trigger] w[t]) as int) == cl,
        row_of(x as int) != r,
        col_of(x as int) != cl,
    ensures
        !w.contains(x),
{
    if w.contains(x) {
        let t = choose|t: int| 0 <= t < w.len() && w[t] == x;
        if t < 8 {
            assert(row_of(w[t] as int) == r);
        } else {
            assert(col_of(w[t] as int) == cl);
        }
    }
}

impl SudokuBoard {
    /// Build the fixed topology of the standard 9x9 board.
    pub fn new() -> (b: SudokuBoard)
        ensures
            b.wf(),
    {
        let mut units: Vec<Vec<usize>> = Vec::new();
        let mut u: usize = 0;
        while u < 27
            invariant
                u <= 27,
                units@.len() == u,
                forall|uu: int| 0 <= uu < u ==> (#[trigger] units@[uu])@.len() == 9,
                forall|uu: int, i: int|
                    0 <= uu < u && 0 <= i < 9 ==> (#[trigger] units@[uu]@[i]) as int == unit_cell(
                        uu,
                        i,
                    ),
            decreases 27 - u,
        {
            let mut mem: Vec<usize> = Vec::new();
            let mut i: usize = 0;
            while i < 9
                invariant
                    u < 27,
                    i <= 9,
                    mem@.len() == i,
                    forall|ii: int|
                        0 <= ii < i ==> (#[trigger] mem@[ii]) as int == unit_cell(u as int, ii),
                decreases 9 - i,
            {
                let cell = unit_cell_x(u, i);
                mem.push(cell);
                i += 1;
            }
            units.push(mem);
            u += 1;
        }
        let mut units_for: Vec<Vec<usize>> = Vec::new();
        let mut c: usize = 0;
        while c < 81
            invariant
                c <= 81,
                units_for@.len() == c,
                forall|cc: int| 0 <= cc < c ==> (#[trigger] units_for@[cc])@.len() == 3,
                forall|cc: int|
                    0 <= cc < c ==> (#[trigger] units_for@[cc])@[0] as int == row_of(cc)
                        && units_for@[cc]@[1] as int == 9 + col_of(cc) && units_for@[cc]@[2] as int
                        == 18 + block_of(cc),
            decreases 81 - c,
        {
            proof {
                lemma_cell_ids(c as int);
            }
            let mut own: Vec<usize> = Vec::new();
            own.push(c / 9);
            own.push(9 + c % 9);
            own.push(18 + (c / 9 / 3 * 3 + c % 9 / 3));
            units_for.push(own);
            c += 1;
        }
        let mut neighbors: Vec<Vec<usize>> = Vec::new();
        let mut c2: usize = 0;
        while c2 < 81
            invariant
                c2 <= 81,
                neighbors@.len() == c2,
                forall|cc: int| 0 <= cc < c2 ==> (#[trigger] neighbors@[cc])@.len() == 20,
                forall|cc: int| 0 <= cc < c2 ==> (#[trigger] neighbors@[cc])@.no_duplicates(),
                forall|cc: int, j: int|
                    0 <= cc < c2 && 0 <= j < 20 ==> is_peer(
                        cc,
                        (#[trigger] neighbors@[cc]@[j]) as int,
                    ),
                forall|cc: int, p: int|
                    0 <= cc < c2 && #[trigger] is_peer(cc, p) ==> exists|j: int|
                        0 <= j < 20 && (#[trigger] neighbors@[cc]@[j]) as int == p,
            decreases 81 - c2,
        {
            let pv = peers_of(c2);
            let ghost pview = pv@;
            let ghost prev = neighbors@;
            neighbors.push(pv);
            proof {
                assert(neighbors@[c2 as int]@ == pview);
                assert forall|cc: int, p: int|
                    0 <= cc < c2 + 1 && #[trigger] is_peer(cc, p) implies exists|j: int|
                    0 <= j < 20 && (#[trigger] neighbors@[cc]@[j]) as int == p by {
                    if cc < c2 {
                        let j = choose|j: int| 0 <= j < 20 && (#[trigger] prev[cc]@[j]) as int == p;
                        assert(neighbors@[cc] == prev[cc]);
                        assert((neighbors@[cc]@[j]) as int == p);
                    } else {
                        let t = choose|t: int| 0 <= t < 20 && (#[trigger] pview[t]) as int == p;
                        assert((neighbors@[cc]@[t]) as int == p);
                    }
                }
            }
            c2 += 1;
        }
        let b = SudokuBoard { units, units_for, neighbors };
        assert forall|cc: int, p: int| #[trigger] is_peer(cc, p) implies exists|j: int|
            0 <= j < 20 && (#[trigger] b.neighbors@[cc]@[j]) as int == p by {
            assert(0 <= cc < 81);
            let j = choose|j: int|
                0 <= j < 20 && (#[trigger] b.neighbors@[cc]@[j]) as int == p;
            assert((b.neighbors@[cc]@[j]) as int == p);
        }
        b
    }
}

} // verus!
