//! What holds of the parity check matrix, of its connectivity and of the
//! codeword test.

use crate::ldpcd::parity_check_matrix::{
    check_satisfied, codeword, column, h_entry, lists_ones, lists_ones_below, overlap, prototype,
    row, shift_entry, Circulant, ParityMatrix, K, N,
};
use vstd::prelude::*;

verus! {

/// A list of the ones of `bits` holds a position exactly if `bits` holds a
/// one there.
pub proof fn lemma_lists_ones_contains(list: Seq<usize>, bits: Seq<u8>, a: int)
    requires
        lists_ones(list, bits),
        0 <= a < bits.len(),
        a <= usize::MAX,
    ensures
        list.contains(a as usize) <==> bits[a] == 1,
{
    if list.contains(a as usize) {
        let k = choose|k: int| 0 <= k < list.len() && list[k] == a as usize;
        assert(bits[list[k] as int] == 1);
    }
}

/// The connectivity agrees with itself and with the matrix: coded bit `a`
/// stands in the list of check `i` exactly if check `i` stands in the list of
/// coded bit `a`, and exactly if the matrix holds a one in row `i`, column
/// `a`.
pub proof fn lemma_connectivity_consistent(pm: ParityMatrix, i: int, a: int)
    requires
        pm.connected(),
        0 <= i < K,
        0 <= a < N,
    ensures
        pm.conns_row[i]@.contains(a as usize) <==> pm.conns_col[a]@.contains(i as usize),
        pm.conns_row[i]@.contains(a as usize) <==> pm.h[i][a] == 1,
{
    lemma_lists_ones_contains(pm.conns_row[i]@, row(pm.h, i), a);
    lemma_lists_ones_contains(pm.conns_col[a]@, column(pm.h, a), i);
}

/// The ascending list of the ones below `n` is determined by `bits`.
pub proof fn lemma_lists_ones_below_unique(
    first: Seq<usize>,
    second: Seq<usize>,
    bits: Seq<u8>,
    n: int,
)
    requires
        0 <= n <= bits.len(),
        n <= usize::MAX,
        lists_ones_below(first, bits, n),
        lists_ones_below(second, bits, n),
    ensures
        first == second,
    decreases n,
{
    if n == 0 {
        if first.len() > 0 {
            assert(first[0] < 0);
        }
        if second.len() > 0 {
            assert(second[0] < 0);
        }
        assert(first =~= second);
    } else if bits[n - 1] == 1 {
        lemma_last_is_greatest_one(first, bits, n);
        lemma_last_is_greatest_one(second, bits, n);
        lemma_lists_ones_below_unique(first.drop_last(), second.drop_last(), bits, n - 1);
        assert(first =~= first.drop_last().push((n - 1) as usize));
        assert(second =~= second.drop_last().push((n - 1) as usize));
    } else {
        lemma_no_one_at_end(first, bits, n);
        lemma_no_one_at_end(second, bits, n);
        lemma_lists_ones_below_unique(first, second, bits, n - 1);
    }
}

/// Where `bits[n - 1]` is one, a list of the ones below `n` ends with
/// `n - 1`, and what stands before lists the ones below `n - 1`.
proof fn lemma_last_is_greatest_one(list: Seq<usize>, bits: Seq<u8>, n: int)
    requires
        0 < n <= bits.len(),
        n <= usize::MAX,
        bits[n - 1] == 1,
        lists_ones_below(list, bits, n),
    ensures
        list.len() > 0,
        list.last() == n - 1,
        lists_ones_below(list.drop_last(), bits, n - 1),
{
    assert(list.contains((n - 1) as usize));
    let k = choose|k: int| 0 <= k < list.len() && list[k] == (n - 1) as usize;
    if k < list.len() - 1 {
        assert(list[k] < list[list.len() - 1]);
    }
    let shorter = list.drop_last();
    assert forall|a: int| 0 <= a < n - 1 && #[trigger] bits[a] == 1 implies shorter.contains(
        a as usize,
    ) by {
        let j = choose|j: int| 0 <= j < list.len() && list[j] == a as usize;
        assert(shorter[j] == a as usize);
    }
    assert forall|j: int| 0 <= j < shorter.len() implies (#[trigger] shorter[j]) < n - 1
        && bits[shorter[j] as int] == 1 by {
        assert(list[j] < list[list.len() - 1]);
    }
}

/// Where `bits[n - 1]` is not one, a list of the ones below `n` lists the
/// ones below `n - 1`.
proof fn lemma_no_one_at_end(list: Seq<usize>, bits: Seq<u8>, n: int)
    requires
        0 < n <= bits.len(),
        bits[n - 1] != 1,
        lists_ones_below(list, bits, n),
    ensures
        lists_ones_below(list, bits, n - 1),
{
    assert forall|j: int| 0 <= j < list.len() implies (#[trigger] list[j]) < n - 1 && bits[list[j] as int]
        == 1 by {
        assert(bits[list[j] as int] == 1);
    }
}

/// The connectivity is determined by the matrix: two values with the same
/// matrix, each with the lists of that matrix, have the same lists.
pub proof fn lemma_connectivity_unique(pm: ParityMatrix, other: ParityMatrix)
    requires
        pm.connected(),
        other.connected(),
        pm.h == other.h,
    ensures
        pm.conns_row@.len() == other.conns_row@.len(),
        pm.conns_col@.len() == other.conns_col@.len(),
        forall|i: int| 0 <= i < K ==> pm.conns_row[i]@ == other.conns_row[i]@,
        forall|a: int| 0 <= a < N ==> pm.conns_col[a]@ == other.conns_col[a]@,
{
    assert forall|i: int| 0 <= i < K implies pm.conns_row[i]@ == other.conns_row[i]@ by {
        lemma_lists_ones_below_unique(
            pm.conns_row[i]@,
            other.conns_row[i]@,
            row(pm.h, i),
            N as int,
        );
    }
    assert forall|a: int| 0 <= a < N implies pm.conns_col[a]@ == other.conns_col[a]@ by {
        lemma_lists_ones_below_unique(
            pm.conns_col[a]@,
            other.conns_col[a]@,
            column(pm.h, a),
            K as int,
        );
    }
}

/// The word `x` with the bit at position `a` inverted.
pub open spec fn flip(x: Seq<bool>, a: int) -> Seq<bool> {
    x.update(a, !x[a])
}

/// Inverting one bit of a word changes the overlap with a row by one where
/// the row holds a one at that position, and not at all where it does not.
proof fn lemma_flip_overlap(bits: Seq<u8>, x: Seq<bool>, a: int, n: int)
    requires
        0 <= a < x.len(),
        0 <= n <= x.len(),
    ensures
        overlap(bits, flip(x, a), n) == overlap(bits, x, n) + (if a < n && bits[a] == 1 {
            if x[a] {
                -1int
            } else {
                1int
            }
        } else {
            0int
        }),
    decreases n,
{
    if n > 0 {
        lemma_flip_overlap(bits, x, a, n - 1);
    }
}

/// Inverting the bit at position `a` inverts the outcome of exactly those
/// parity checks in which coded bit `a` takes part.
pub proof fn lemma_flip_toggles_checks(h: [[u8; N]; K], x: Seq<bool>, a: int, i: int)
    requires
        x.len() == N,
        0 <= a < N,
        0 <= i < K,
    ensures
        check_satisfied(h, flip(x, a), i) == (if h[i][a] == 1 {
            !check_satisfied(h, x, i)
        } else {
            check_satisfied(h, x, i)
        }),
{
    lemma_flip_overlap(row(h, i), x, a, N as int);
}

/// A parity check of H_128x256 in which coded bit `a` takes part.
pub open spec fn a_check_of(a: int) -> int {
    if a < 128 {
        a
    } else {
        ((a / 32 - 3) % 4) * 32 + a % 32
    }
}

/// Every coded bit of H_128x256 takes part in at least one parity check.
pub proof fn lemma_every_bit_is_checked(a: int)
    requires
        0 <= a < N,
    ensures
        0 <= a_check_of(a) < K,
        h_entry(a_check_of(a), a) == 1,
{
}

/// Inverting one bit of a codeword of H_128x256 gives a word that is no
/// codeword: it fails exactly the parity checks of that bit, those that
/// `conns_col` lists for it. Inverting the bit again gives the codeword
/// back.
pub proof fn lemma_single_flip_is_detected(pm: ParityMatrix, x: Seq<bool>, a: int)
    requires
        pm.is_standard(),
        pm.connected(),
        x.len() == N,
        0 <= a < N,
        codeword(pm.h, x),
    ensures
        !codeword(pm.h, flip(x, a)),
        forall|i: int|
            0 <= i < K ==> (!check_satisfied(pm.h, flip(x, a), i) <==> pm.conns_col[a]@.contains(
                i as usize,
            )),
        flip(flip(x, a), a) == x,
        codeword(pm.h, flip(flip(x, a), a)),
{
    assert forall|i: int| 0 <= i < K implies (!check_satisfied(pm.h, flip(x, a), i)
        <==> pm.conns_col[a]@.contains(i as usize)) by {
        lemma_flip_toggles_checks(pm.h, x, a, i);
        lemma_connectivity_consistent(pm, i, a);
    }
    lemma_every_bit_is_checked(a);
    let i = a_check_of(a);
    assert(pm.h[i][a] == h_entry(i, a));
    lemma_flip_toggles_checks(pm.h, x, a, i);
    assert(!check_satisfied(pm.h, flip(x, a), i));
    assert(flip(flip(x, a), a) =~= x);
}

/// The number of ones of `bits` below position `n`.
pub open spec fn count_ones(bits: Seq<u8>, n: int) -> nat
    decreases n,
{
    if n <= 0 {
        0
    } else {
        count_ones(bits, n - 1) + (if bits[n - 1] == 1 {
            1nat
        } else {
            0nat
        })
    }
}

/// A list of the ones below `n` is as long as there are ones below `n`.
pub proof fn lemma_list_length(list: Seq<usize>, bits: Seq<u8>, n: int)
    requires
        0 <= n <= bits.len(),
        n <= usize::MAX,
        lists_ones_below(list, bits, n),
    ensures
        list.len() == count_ones(bits, n),
    decreases n,
{
    if n == 0 {
        if list.len() > 0 {
            assert(list[0] < 0);
        }
    } else if bits[n - 1] == 1 {
        lemma_last_is_greatest_one(list, bits, n);
        lemma_list_length(list.drop_last(), bits, n - 1);
    } else {
        lemma_no_one_at_end(list, bits, n);
        lemma_list_length(list, bits, n - 1);
    }
}

/// The number of ones of `h` in the rows below `m`, within the columns
/// below `n`.
pub open spec fn ones_in(h: [[u8; N]; K], m: int, n: int) -> nat
    decreases m,
{
    if m <= 0 {
        0
    } else {
        ones_in(h, m - 1, n) + count_ones(row(h, m - 1), n)
    }
}

/// The ones within the columns below `n` are those within the columns below
/// `n - 1` and those of column `n - 1`.
proof fn lemma_ones_in_by_column(h: [[u8; N]; K], m: int, n: int)
    requires
        0 <= m <= K,
        0 < n <= N,
    ensures
        ones_in(h, m, n) == ones_in(h, m, n - 1) + count_ones(column(h, n - 1), m),
    decreases m,
{
    if m > 0 {
        lemma_ones_in_by_column(h, m - 1, n);
        assert(column(h, n - 1)[m - 1] == h[m - 1][n - 1]);
        assert(row(h, m - 1)[n - 1] == h[m - 1][n - 1]);
    }
}

/// No column, no ones.
proof fn lemma_ones_in_no_column(h: [[u8; N]; K], m: int)
    ensures
        ones_in(h, m, 0) == 0,
    decreases m,
{
    if m > 0 {
        lemma_ones_in_no_column(h, m - 1);
    }
}

/// The number of entries that the first `n` lists hold together.
pub open spec fn total_len(lists: Seq<Vec<usize>>, n: int) -> nat
    decreases n,
{
    if n <= 0 {
        0
    } else {
        total_len(lists, n - 1) + lists[n - 1]@.len()
    }
}

/// The first `m` row lists hold as many entries as the first `m` rows hold
/// ones.
proof fn lemma_row_edges(pm: ParityMatrix, m: int)
    requires
        pm.connected(),
        0 <= m <= K,
    ensures
        total_len(pm.conns_row@, m) == ones_in(pm.h, m, N as int),
    decreases m,
{
    if m > 0 {
        lemma_row_edges(pm, m - 1);
        lemma_list_length(pm.conns_row[m - 1]@, row(pm.h, m - 1), N as int);
    }
}

/// The first `n` column lists hold as many entries as the first `n` columns
/// hold ones.
proof fn lemma_column_edges(pm: ParityMatrix, n: int)
    requires
        pm.connected(),
        0 <= n <= N,
    ensures
        total_len(pm.conns_col@, n) == ones_in(pm.h, K as int, n),
    decreases n,
{
    if n > 0 {
        lemma_column_edges(pm, n - 1);
        lemma_list_length(pm.conns_col[n - 1]@, column(pm.h, n - 1), K as int);
        lemma_ones_in_by_column(pm.h, K as int, n);
    } else {
        lemma_ones_in_no_column(pm.h, K as int);
    }
}

/// Both sides of the connectivity hold the same number of edges: the row
/// lists together are as long as the column lists together, and as many as
/// the matrix holds ones.
pub proof fn lemma_edge_counts_agree(pm: ParityMatrix)
    requires
        pm.connected(),
    ensures
        total_len(pm.conns_row@, K as int) == total_len(pm.conns_col@, N as int),
        total_len(pm.conns_row@, K as int) == ones_in(pm.h, K as int, N as int),
{
    lemma_row_edges(pm, K as int);
    lemma_column_edges(pm, N as int);
}

/// Where `bits` holds no one from `lo` to below `hi`, the count stays.
proof fn lemma_count_none(bits: Seq<u8>, lo: int, hi: int)
    requires
        0 <= lo <= hi,
        forall|k: int| lo <= k < hi ==> bits[k] != 1,
    ensures
        count_ones(bits, hi) == count_ones(bits, lo),
    decreases hi - lo,
{
    if lo < hi {
        lemma_count_none(bits, lo, hi - 1);
    }
}

/// Where `bits` holds one one from `lo` to below `hi`, the count grows by
/// one.
proof fn lemma_count_single(bits: Seq<u8>, lo: int, hi: int, pos: int)
    requires
        0 <= lo <= pos < hi,
        forall|k: int| lo <= k < hi ==> (bits[k] == 1 <==> k == pos),
    ensures
        count_ones(bits, hi) == count_ones(bits, lo) + 1,
{
    lemma_count_none(bits, lo, pos);
    lemma_count_none(bits, pos + 1, hi);
}

/// Where `bits` holds two ones from `lo` to below `hi`, the count grows by
/// two.
proof fn lemma_count_pair(bits: Seq<u8>, lo: int, hi: int, first: int, second: int)
    requires
        0 <= lo <= first < second < hi,
        forall|k: int| lo <= k < hi ==> (bits[k] == 1 <==> (k == first || k == second)),
    ensures
        count_ones(bits, hi) == count_ones(bits, lo) + 2,
{
    lemma_count_single(bits, lo, second, first);
    lemma_count_single(bits, second, hi, second);
}

/// The number of ones in each row, and in each column, of a sub-block.
pub open spec fn weight(shape: Circulant) -> nat {
    match shape {
        Circulant::Zero => 0,
        Circulant::Shift(_) => 1,
        Circulant::IdentityPlusShift(n) => if n % 32 == 0 {
            0
        } else {
            2
        },
    }
}

/// Thirty-two entries of `bits` from `lo` on that are row `r` of a sub-block
/// hold as many ones as the sub-block has in each row.
proof fn lemma_shape_row(bits: Seq<u8>, shape: Circulant, lo: int, r: int)
    requires
        0 <= lo,
        0 <= r < 32,
        forall|k: int| lo <= k < lo + 32 ==> bits[k] == shape.entry(r, k - lo),
    ensures
        count_ones(bits, lo + 32) == count_ones(bits, lo) + weight(shape),
{
    match shape {
        Circulant::Zero => {
            lemma_count_none(bits, lo, lo + 32);
        },
        Circulant::Shift(n) => {
            lemma_count_single(bits, lo, lo + 32, lo + (r + n) % 32);
        },
        Circulant::IdentityPlusShift(n) => {
            let other = (r + n) % 32;
            if n % 32 == 0 {
                lemma_count_none(bits, lo, lo + 32);
            } else if r < other {
                lemma_count_pair(bits, lo, lo + 32, lo + r, lo + other);
            } else {
                lemma_count_pair(bits, lo, lo + 32, lo + other, lo + r);
            }
        },
    }
}

/// Row `i` of H_128x256 holds, within block column `bc`, as many ones as
/// the sub-block there has in each row.
proof fn lemma_row_segment(pm: ParityMatrix, i: int, bc: int)
    requires
        pm.is_standard(),
        0 <= i < K,
        0 <= bc < 8,
    ensures
        count_ones(row(pm.h, i), 32 * (bc + 1)) == count_ones(row(pm.h, i), 32 * bc) + weight(
            prototype(i / 32, bc),
        ),
{
    let bits = row(pm.h, i);
    let shape = prototype(i / 32, bc);
    let lo = 32 * bc;
    assert forall|k: int| lo <= k < lo + 32 implies bits[k] == shape.entry(i % 32, k - lo) by {
        assert(pm.h[i][k] == h_entry(i, k));
        assert(k / 32 == bc && k % 32 == k - lo);
    }
    lemma_shape_row(bits, shape, lo, i % 32);
}

/// The row in which column `c` of the identity rotated right by `n` holds
/// its one.
pub open spec fn row_of_one(n: int, c: int) -> int {
    (c + 32 - n % 32) % 32
}

/// The identity rotated right by `n` holds a one in row `j` of column `c`
/// exactly if `j` is `row_of_one(n, c)`.
proof fn lemma_shift_entry_by_column(n: int, j: int, c: int)
    requires
        0 <= n,
        0 <= j < 32,
        0 <= c < 32,
    ensures
        shift_entry(n, j, c) == 1 <==> j == row_of_one(n, c),
{
    let s = n % 32;
    assert((j + n) % 32 == (j + s) % 32);
}

/// Column `a` of H_128x256 holds, within block row `br`, as many ones as
/// the sub-block there has in each column.
proof fn lemma_column_segment(pm: ParityMatrix, a: int, br: int)
    requires
        pm.is_standard(),
        0 <= a < N,
        0 <= br < 4,
    ensures
        count_ones(column(pm.h, a), 32 * (br + 1)) == count_ones(column(pm.h, a), 32 * br)
            + weight(prototype(br, a / 32)),
{
    let bits = column(pm.h, a);
    let shape = prototype(br, a / 32);
    let c = a % 32;
    let lo = 32 * br;
    assert forall|k: int| lo <= k < lo + 32 implies bits[k] == shape.entry(k - lo, c) by {
        assert(pm.h[k][a] == h_entry(k, a));
        assert(k / 32 == br && k % 32 == k - lo);
    }
    lemma_shape_column(bits, shape, lo, c);
}

/// Thirty-two entries of `bits` from `lo` on that are column `c` of a
/// sub-block hold as many ones as the sub-block has in each column.
proof fn lemma_shape_column(bits: Seq<u8>, shape: Circulant, lo: int, c: int)
    requires
        0 <= lo,
        0 <= c < 32,
        forall|k: int| lo <= k < lo + 32 ==> bits[k] == shape.entry(k - lo, c),
    ensures
        count_ones(bits, lo + 32) == count_ones(bits, lo) + weight(shape),
{
    match shape {
        Circulant::Zero => {
            lemma_count_none(bits, lo, lo + 32);
        },
        Circulant::Shift(n) => {
            let pos = lo + row_of_one(n as int, c);
            assert forall|k: int| lo <= k < lo + 32 implies (bits[k] == 1 <==> k == pos) by {
                lemma_shift_entry_by_column(n as int, k - lo, c);
            }
            lemma_count_single(bits, lo, lo + 32, pos);
        },
        Circulant::IdentityPlusShift(n) => {
            let other = row_of_one(n as int, c);
            assert forall|k: int| lo <= k < lo + 32 implies (bits[k] == 1 <==> (n % 32 != 0 && (k
                == lo + c || k == lo + other))) by {
                lemma_shift_entry_by_column(n as int, k - lo, c);
                lemma_shift_entry_by_column(0, k - lo, c);
            }
            if n % 32 == 0 {
                lemma_count_none(bits, lo, lo + 32);
            } else if c < other {
                lemma_count_pair(bits, lo, lo + 32, lo + c, lo + other);
            } else {
                lemma_count_pair(bits, lo, lo + 32, lo + other, lo + c);
            }
        },
    }
}

/// Every parity check of H_128x256 has eight coded bits, every coded bit of
/// the first half five parity checks, and every other three.
pub proof fn lemma_weights(pm: ParityMatrix, i: int, a: int)
    requires
        pm.is_standard(),
        pm.connected(),
        0 <= i < K,
        0 <= a < N,
    ensures
        pm.conns_row[i]@.len() == 8,
        pm.conns_col[a]@.len() == (if a < 128 {
            5nat
        } else {
            3nat
        }),
{
    lemma_list_length(pm.conns_row[i]@, row(pm.h, i), N as int);
    lemma_row_segment(pm, i, 0);
    lemma_row_segment(pm, i, 1);
    lemma_row_segment(pm, i, 2);
    lemma_row_segment(pm, i, 3);
    lemma_row_segment(pm, i, 4);
    lemma_row_segment(pm, i, 5);
    lemma_row_segment(pm, i, 6);
    lemma_row_segment(pm, i, 7);
    lemma_list_length(pm.conns_col[a]@, column(pm.h, a), K as int);
    lemma_column_segment(pm, a, 0);
    lemma_column_segment(pm, a, 1);
    lemma_column_segment(pm, a, 2);
    lemma_column_segment(pm, a, 3);
}

} // verus!
