//! The nine column ranges of a ticket and the combinations drawn from them.
use vstd::prelude::*;
use itertools::Itertools;

verus! {

/// Number of columns of a ticket.
pub const COLUMNS: usize = 9;

/// Largest number of values that one column gives a ticket.
pub const MAX_PER_COLUMN: usize = 3;

/// First number of column `c`.
pub open spec fn column_lo(c: int) -> int {
    if c == 0 { 1 } else { 10 * c }
}

/// One past the last number of column `c`: the last column also holds 90.
pub open spec fn column_hi(c: int) -> int {
    if c == 8 { 91 } else { 10 * (c + 1) }
}

pub open spec fn column_width(c: int) -> nat {
    (column_hi(c) - column_lo(c)) as nat
}

/// The `k`-element subsets of `lo..hi`, each in ascending order, the list in lexicographic
/// order.
pub open spec fn combos(lo: int, hi: int, k: nat) -> Seq<Seq<u32>>
    decreases (if lo < hi { hi - lo } else { 0 }), k,
{
    if k == 0 {
        seq![Seq::<u32>::empty()]
    } else if lo >= hi {
        Seq::empty()
    } else {
        combos(lo + 1, hi, (k - 1) as nat).map_values(|c: Seq<u32>| seq![lo as u32] + c)
            + combos(lo + 1, hi, k)
    }
}

pub open spec fn binom(n: nat, k: nat) -> nat
    decreases n,
{
    if k == 0 {
        1
    } else if n == 0 {
        0
    } else {
        binom((n - 1) as nat, (k - 1) as nat) + binom((n - 1) as nat, k)
    }
}

pub open spec fn pow2(n: nat) -> nat
    decreases n,
{
    if n == 0 { 1 } else { 2 * pow2((n - 1) as nat) }
}

/// The combinations of `size` values from column `c`.
pub open spec fn column_combos(c: int, size: nat) -> Seq<Seq<u32>> {
    combos(column_lo(c), column_hi(c), size)
}

/// `s` is strictly ascending and lies within `lo..hi`.
pub open spec fn ascending_within(s: Seq<u32>, lo: int, hi: int) -> bool {
    &&& forall|j: int| 0 <= j < s.len() ==> lo <= #[trigger] s[j] < hi
    &&& forall|i: int, j: int| 0 <= i < j < s.len() ==> s[i] < s[j]
}

pub proof fn lemma_combos_len(lo: int, hi: int, k: nat)
    requires
        lo <= hi,
    ensures
        combos(lo, hi, k).len() == binom((hi - lo) as nat, k),
    decreases hi - lo, k,
{
    if k == 0 {
    } else if lo == hi {
    } else {
        lemma_combos_len(lo + 1, hi, (k - 1) as nat);
        lemma_combos_len(lo + 1, hi, k);
    }
}

/// Every combination has `k` values, strictly ascending, within `lo..hi`.
pub proof fn lemma_combos_shape(lo: int, hi: int, k: nat)
    requires
        0 <= lo <= hi <= 0x1_0000_0000,
    ensures
        forall|i: int| 0 <= i < combos(lo, hi, k).len() ==> {
            &&& (#[trigger] combos(lo, hi, k)[i]).len() == k
            &&& ascending_within(combos(lo, hi, k)[i], lo, hi)
        },
    decreases hi - lo, k,
{
    if k == 0 {
    } else if lo == hi {
    } else {
        let k1 = (k - 1) as nat;
        lemma_combos_shape(lo + 1, hi, k1);
        lemma_combos_shape(lo + 1, hi, k);
        let left = combos(lo + 1, hi, k1).map_values(|c: Seq<u32>| seq![lo as u32] + c);
        let right = combos(lo + 1, hi, k);
        assert forall|i: int| 0 <= i < combos(lo, hi, k).len() implies {
            &&& (#[trigger] combos(lo, hi, k)[i]).len() == k
            &&& ascending_within(combos(lo, hi, k)[i], lo, hi)
        } by {
            if i < left.len() {
                let c = combos(lo + 1, hi, k1)[i];
                assert(combos(lo, hi, k)[i] == seq![lo as u32] + c);
                assert(ascending_within(c, lo + 1, hi));
            } else {
                assert(combos(lo, hi, k)[i] == right[i - left.len()]);
            }
        }
    }
}

pub proof fn lemma_binom_bounds(n: nat, k: nat)
    ensures
        binom(n, k) <= pow2(n),
        k <= n ==> binom(n, k) >= 1,
    decreases n,
{
    if k == 0 {
        lemma_pow2_positive(n);
    } else if n == 0 {
    } else {
        lemma_binom_bounds((n - 1) as nat, (k - 1) as nat);
        lemma_binom_bounds((n - 1) as nat, k);
    }
}

pub proof fn lemma_pow2_positive(n: nat)
    ensures
        pow2(n) >= 1,
    decreases n,
{
    if n > 0 {
        lemma_pow2_positive((n - 1) as nat);
    }
}

/// Relies on `Itertools::combinations` over the range `lo..hi`: its documentation gives the
/// `k`-element combinations of the range's values in lexicographic order, each in ascending
/// order.
#[verifier::external_body]
fn range_combinations(lo: u32, hi: u32, k: usize) -> (r: Vec<Vec<u32>>)
    ensures
        r@.len() == combos(lo as int, hi as int, k as nat).len(),
        forall|i: int| 0 <= i < r@.len() ==> (#[trigger] r@[i])@ == combos(lo as int, hi as int, k as nat)[i],
{
    (lo..hi).combinations(k).collect()
}

/// All combinations of `size` values from column `column`, in lexicographic order.
pub fn column_combinations(column: usize, size: usize) -> (r: Vec<Vec<u32>>)
    requires
        column < COLUMNS,
    ensures
        r@.len() == column_combos(column as int, size as nat).len(),
        forall|i: int| 0 <= i < r@.len() ==> (#[trigger] r@[i])@ == column_combos(column as int, size as nat)[i],
{
    let lo: u32 = if column == 0 { 1 } else { 10 * column as u32 };
    let hi: u32 = if column == 8 { 91 } else { 10 * (column as u32 + 1) };
    range_combinations(lo, hi, size)
}

} // verus!
