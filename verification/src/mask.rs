//! Candidate sets over the digits 1..=9, stored as bitmasks: bit `d` of a
//! `u16` is set iff digit `d` is still a candidate.

use vstd::prelude::*;

verus! {

/// Mask with the bits for all nine digits set.
pub const FULL_MASK: u16 = 0x03FE;

/// A well-formed mask uses only the bits for digits 1..=9.
pub open spec fn mask_wf(m: u16) -> bool {
    m & 0x03FEu16 == m
}

/// Digit `d` is a candidate in mask `m`.
pub open spec fn mask_has(m: u16, d: int) -> bool {
    1 <= d <= 9 && (m >> (d as u16)) & 1u16 == 1u16
}

/// The mask holding exactly the digit `d`.
pub open spec fn mask_single(d: int) -> u16 {
    1u16 << (d as u16)
}

/// `m` with the bit for digit `d` cleared.
pub open spec fn remove_digit(m: u16, d: int) -> u16 {
    m & !(1u16 << (d as u16))
}

/// 1 if digit `d` is a candidate in `m`, else 0.
pub open spec fn digit_weight(m: u16, d: int) -> nat {
    if mask_has(m, d) {
        1nat
    } else {
        0nat
    }
}

/// Number of candidate digits in `m`.
pub open spec fn mask_count(m: u16) -> nat {
    digit_weight(m, 1) + digit_weight(m, 2) + digit_weight(m, 3) + digit_weight(m, 4)
        + digit_weight(m, 5) + digit_weight(m, 6) + digit_weight(m, 7) + digit_weight(m, 8)
        + digit_weight(m, 9)
}

/// Number of candidate digits in `m` among digits below `d`.
pub open spec fn mask_count_below(m: u16, d: int) -> nat
    decreases d,
{
    if d <= 1 {
        0
    } else {
        mask_count_below(m, d - 1) + digit_weight(m, d - 1)
    }
}

pub proof fn lemma_count_below_full(m: u16)
    ensures
        mask_count_below(m, 10) == mask_count(m),
{
    reveal_with_fuel(mask_count_below, 11);
}

/// Clearing the bit of digit `v`: which digits remain, well-formedness is
/// kept, and the mask strictly shrinks as an integer when `v` was present.
pub proof fn lemma_remove(m: u16, v: int)
    requires
        1 <= v <= 9,
    ensures
        forall|d: int| #[trigger] mask_has(remove_digit(m, v), d) == (mask_has(m, d) && d != v),
        mask_wf(m) ==> mask_wf(remove_digit(m, v)),
        mask_has(m, v) ==> remove_digit(m, v) < m,
{
    let vv = v as u16;
    assert forall|d: int| #[trigger] mask_has(remove_digit(m, v), d) == (mask_has(m, d) && d != v) by {
        if 1 <= d <= 9 {
            let dd = d as u16;
            assert((((m & !(1u16 << vv)) >> dd) & 1u16 == 1u16) == ((((m >> dd) & 1u16 == 1u16)
                && dd != vv))) by (bit_vector)
                requires
                    1 <= vv <= 9,
                    1 <= dd <= 9,
            ;
        }
    }
    assert((m & 0x03FEu16 == m ==> (m & !(1u16 << vv)) & 0x03FEu16 == (m & !(1u16 << vv))) && ((m
        >> vv) & 1u16 == 1u16 ==> (m & !(1u16 << vv)) < m)) by (bit_vector)
        requires
            1 <= vv <= 9,
    ;
}

/// The singleton mask of `v` holds `v` and nothing else.
pub proof fn lemma_single(v: int)
    requires
        1 <= v <= 9,
    ensures
        forall|d: int| #[trigger] mask_has(mask_single(v), d) == (d == v),
        mask_wf(mask_single(v)),
        mask_single(v) != 0,
        mask_count(mask_single(v)) == 1,
{
    let vv = v as u16;
    assert forall|d: int| #[trigger] mask_has(mask_single(v), d) == (d == v) by {
        if 1 <= d <= 9 {
            let dd = d as u16;
            assert((((1u16 << vv) >> dd) & 1u16 == 1u16) == (dd == vv)) by (bit_vector)
                requires
                    1 <= vv <= 9,
                    1 <= dd <= 9,
            ;
        }
    }
    assert((1u16 << vv) & 0x03FEu16 == (1u16 << vv) && (1u16 << vv) != 0) by (bit_vector)
        requires
            1 <= vv <= 9,
    ;
    assert(1 <= v <= 9 ==> v == 1 || v == 2 || v == 3 || v == 4 || v == 5 || v == 6 || v == 7
        || v == 8 || v == 9);
}

/// The full mask holds every digit.
pub proof fn lemma_full()
    ensures
        forall|d: int| #[trigger] mask_has(0x03FEu16, d) == (1 <= d <= 9),
        mask_wf(0x03FEu16),
        mask_count(0x03FEu16) == 9,
{
    assert forall|d: int| #[trigger] mask_has(0x03FEu16, d) == (1 <= d <= 9) by {
        if 1 <= d <= 9 {
            let dd = d as u16;
            assert((0x03FEu16 >> dd) & 1u16 == 1u16) by (bit_vector)
                requires
                    1 <= dd <= 9,
            ;
        }
    }
    assert(0x03FEu16 & 0x03FEu16 == 0x03FEu16) by (bit_vector);
}

/// The zero mask holds no digit.
pub proof fn lemma_zero()
    ensures
        forall|d: int| !(#[trigger] mask_has(0u16, d)),
        mask_count(0u16) == 0,
{
    assert forall|d: int| !(#[trigger] mask_has(0u16, d)) by {
        if 1 <= d <= 9 {
            let dd = d as u16;
            assert((0u16 >> dd) & 1u16 != 1u16) by (bit_vector)
                requires
                    1 <= dd <= 9,
            ;
        }
    }
}

/// A well-formed, non-zero mask holds at least one digit.
pub proof fn lemma_nonzero(m: u16)
    requires
        mask_wf(m),
        m != 0,
    ensures
        exists|d: int| #[trigger] mask_has(m, d),
{
    assert((m >> 1u16) & 1u16 == 1u16 || (m >> 2u16) & 1u16 == 1u16 || (m >> 3u16) & 1u16 == 1u16
        || (m >> 4u16) & 1u16 == 1u16 || (m >> 5u16) & 1u16 == 1u16 || (m >> 6u16) & 1u16 == 1u16
        || (m >> 7u16) & 1u16 == 1u16 || (m >> 8u16) & 1u16 == 1u16 || (m >> 9u16) & 1u16
        == 1u16) by (bit_vector)
        requires
            m & 0x03FEu16 == m,
            m != 0,
    ;
    if mask_has(m, 1) {
        assert(mask_has(m, 1));
    } else if mask_has(m, 2) {
        assert(mask_has(m, 2));
    } else if mask_has(m, 3) {
        assert(mask_has(m, 3));
    } else if mask_has(m, 4) {
        assert(mask_has(m, 4));
    } else if mask_has(m, 5) {
        assert(mask_has(m, 5));
    } else if mask_has(m, 6) {
        assert(mask_has(m, 6));
    } else if mask_has(m, 7) {
        assert(mask_has(m, 7));
    } else if mask_has(m, 8) {
        assert(mask_has(m, 8));
    } else {
        assert(mask_has(m, 9));
    }
}

/// Digit-wise inclusion of well-formed masks bounds their integer values.
pub proof fn lemma_le(a: u16, b: u16)
    requires
        mask_wf(a),
        mask_wf(b),
        forall|d: int| #[trigger] mask_has(a, d) ==> mask_has(b, d),
    ensures
        a <= b,
{
    assert(mask_has(a, 1) ==> mask_has(b, 1));
    assert(mask_has(a, 2) ==> mask_has(b, 2));
    assert(mask_has(a, 3) ==> mask_has(b, 3));
    assert(mask_has(a, 4) ==> mask_has(b, 4));
    assert(mask_has(a, 5) ==> mask_has(b, 5));
    assert(mask_has(a, 6) ==> mask_has(b, 6));
    assert(mask_has(a, 7) ==> mask_has(b, 7));
    assert(mask_has(a, 8) ==> mask_has(b, 8));
    assert(mask_has(a, 9) ==> mask_has(b, 9));
    assert(a <= b) by (bit_vector)
        requires
            a & 0x03FEu16 == a,
            b & 0x03FEu16 == b,
            (a >> 1u16) & 1u16 == 1u16 ==> (b >> 1u16) & 1u16 == 1u16,
            (a >> 2u16) & 1u16 == 1u16 ==> (b >> 2u16) & 1u16 == 1u16,
            (a >> 3u16) & 1u16 == 1u16 ==> (b >> 3u16) & 1u16 == 1u16,
            (a >> 4u16) & 1u16 == 1u16 ==> (b >> 4u16) & 1u16 == 1u16,
            (a >> 5u16) & 1u16 == 1u16 ==> (b >> 5u16) & 1u16 == 1u16,
            (a >> 6u16) & 1u16 == 1u16 ==> (b >> 6u16) & 1u16 == 1u16,
            (a >> 7u16) & 1u16 == 1u16 ==> (b >> 7u16) & 1u16 == 1u16,
            (a >> 8u16) & 1u16 == 1u16 ==> (b >> 8u16) & 1u16 == 1u16,
            (a >> 9u16) & 1u16 == 1u16 ==> (b >> 9u16) & 1u16 == 1u16,
    ;
}

/// A mask holding exactly one digit is the singleton of any digit it holds.
pub proof fn lemma_count_one(m: u16, d: int)
    requires
        mask_wf(m),
        mask_count(m) == 1,
        mask_has(m, d),
    ensures
        m == mask_single(d),
{
    let dd = d as u16;
    assert((m >> 1u16) & 1u16 <= 1 && (m >> 2u16) & 1u16 <= 1 && (m >> 3u16) & 1u16 <= 1 && (m
        >> 4u16) & 1u16 <= 1 && (m >> 5u16) & 1u16 <= 1 && (m >> 6u16) & 1u16 <= 1 && (m >> 7u16)
        & 1u16 <= 1 && (m >> 8u16) & 1u16 <= 1 && (m >> 9u16) & 1u16 <= 1) by (bit_vector);
    assert(mask_count(m) == ((m >> 1u16) & 1u16) + ((m >> 2u16) & 1u16) + ((m >> 3u16) & 1u16) + ((
    m >> 4u16) & 1u16) + ((m >> 5u16) & 1u16) + ((m >> 6u16) & 1u16) + ((m >> 7u16) & 1u16) + ((m
        >> 8u16) & 1u16) + ((m >> 9u16) & 1u16));
    assert(m == 1u16 << dd) by (bit_vector)
        requires
            1 <= dd <= 9,
            (m >> dd) & 1u16 == 1u16,
            m & 0x03FEu16 == m,
            ((m >> 1u16) & 1u16) + ((m >> 2u16) & 1u16) + ((m >> 3u16) & 1u16) + ((m >> 4u16)
                & 1u16) + ((m >> 5u16) & 1u16) + ((m >> 6u16) & 1u16) + ((m >> 7u16) & 1u16) + ((m
                >> 8u16) & 1u16) + ((m >> 9u16) & 1u16) == 1,
    ;
}

/// A mask holding some digit holds at least one.
pub proof fn lemma_has_count(m: u16, d: int)
    requires
        mask_has(m, d),
    ensures
        mask_count(m) >= 1,
{
    assert(d == 1 || d == 2 || d == 3 || d == 4 || d == 5 || d == 6 || d == 7 || d == 8 || d == 9);
}

/// A non-zero mask whose digits all equal `d` is the singleton of `d`.
pub proof fn lemma_sub_single(m: u16, d: int)
    requires
        mask_wf(m),
        m != 0,
        1 <= d <= 9,
        forall|e: int| #[trigger] mask_has(m, e) ==> e == d,
    ensures
        m == mask_single(d),
{
    lemma_nonzero(m);
    assert(mask_has(m, d));
    assert(d == 1 || d == 2 || d == 3 || d == 4 || d == 5 || d == 6 || d == 7 || d == 8 || d == 9);
    assert(mask_count(m) == 1);
    lemma_count_one(m, d);
}

/// Total candidate weight of a sequence of masks; the measure that every
/// elimination strictly shrinks.
pub open spec fn cells_total(s: Seq<u16>) -> nat
    decreases s.len(),
{
    if s.len() == 0 {
        0
    } else {
        cells_total(s.drop_last()) + s.last() as nat
    }
}

pub proof fn lemma_total_le(a: Seq<u16>, b: Seq<u16>)
    requires
        a.len() == b.len(),
        forall|i: int| 0 <= i < a.len() ==> #[trigger] a[i] <= b[i],
    ensures
        cells_total(a) <= cells_total(b),
    decreases a.len(),
{
    if a.len() > 0 {
        lemma_total_le(a.drop_last(), b.drop_last());
    }
}

pub proof fn lemma_total_lt(a: Seq<u16>, b: Seq<u16>, k: int)
    requires
        a.len() == b.len(),
        0 <= k < a.len(),
        forall|i: int| 0 <= i < a.len() ==> #[trigger] a[i] <= b[i],
        a[k] < b[k],
    ensures
        cells_total(a) < cells_total(b),
    decreases a.len(),
{
    if k == a.len() - 1 {
        lemma_total_le(a.drop_last(), b.drop_last());
    } else {
        lemma_total_lt(a.drop_last(), b.drop_last(), k);
    }
}

/// Digit membership test.
pub fn mask_has_x(m: u16, d: usize) -> (r: bool)
    requires
        1 <= d <= 9,
    ensures
        r == mask_has(m, d as int),
{
    (m >> (d as u16)) & 1u16 == 1u16
}

/// Clear the bit of digit `d`.
pub fn mask_remove_x(m: u16, d: usize) -> (r: u16)
    requires
        1 <= d <= 9,
    ensures
        r == remove_digit(m, d as int),
{
    m & !(1u16 << (d as u16))
}

/// Number of candidate digits in `m`.
pub fn mask_len(m: u16) -> (n: usize)
    ensures
        n == mask_count(m),
{
    let mut n: usize = 0;
    let mut d: usize = 1;
    while d <= 9
        invariant
            1 <= d <= 10,
            n == mask_count_below(m, d as int),
            n < d,
        decreases 10 - d,
    {
        if mask_has_x(m, d) {
            n = n + 1;
        }
        d = d + 1;
    }
    proof {
        lemma_count_below_full(m);
    }
    n
}

/// The smallest candidate digit of a well-formed, non-empty mask.
pub fn mask_first(m: u16) -> (r: usize)
    requires
        mask_wf(m),
        m != 0,
    ensures
        1 <= r <= 9,
        mask_has(m, r as int),
{
    let mut d: usize = 1;
    while d <= 9
        invariant
            1 <= d <= 10,
            forall|e: int| 1 <= e < d ==> !(#[trigger] mask_has(m, e)),
        decreases 10 - d,
    {
        if mask_has_x(m, d) {
            return d;
        }
        d = d + 1;
    }
    proof {
        lemma_nonzero(m);
        assert(forall|e: int| !(#[trigger] mask_has(m, e)));
        assert(false);
    }
    unreached()
}

} // verus!
