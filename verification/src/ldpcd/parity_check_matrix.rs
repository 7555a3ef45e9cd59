//! The parity check matrix of the code, and what is derived from it.

use crate::ldpcd::parity_check_lemmas::lemma_connectivity_consistent;
use vstd::prelude::*;

verus! {

/// Size of the circulant sub-blocks of the parity check matrix.
pub const M: usize = 32;

/// Number of sub-blocks in one block row.
pub const BR: usize = 8;

/// Number of sub-blocks in one block column.
pub const BC: usize = 4;

/// Code dimension: the number of parity checks, and of message bits.
pub const K: usize = BC * M;

/// Code block length: the number of coded bits.
pub const N: usize = BR * M;

/// There are fewer parity checks than coded bits, and the coded bits fill
/// whole bytes.
pub proof fn lemma_code_parameters()
    ensures
        K == 128,
        N == 256,
        K < N,
        N % 8 == 0,
{
}

/// An `M` by `M` binary matrix.
pub type Block = [[u8; M]; M];

/// The three shapes a sub-block of the parity check matrix can have.
pub enum Circulant {
    /// All entries zero.
    Zero,
    /// The identity with every row rotated right by the given amount.
    Shift(usize),
    /// The identity plus the rotated identity, entry by entry modulo 2.
    IdentityPlusShift(usize),
}

/// Entry `(i, j)` of the identity rotated right by `n`: the single one of
/// row `i` stands in column `(i + n) mod M`.
pub open spec fn shift_entry(n: int, i: int, j: int) -> u8 {
    if j == (i + n) % 32 {
        1
    } else {
        0
    }
}

impl Circulant {
    /// Entry `(i, j)` of a sub-block of this shape.
    pub open spec fn entry(self, i: int, j: int) -> u8 {
        match self {
            Circulant::Zero => 0,
            Circulant::Shift(n) => shift_entry(n as int, i, j),
            Circulant::IdentityPlusShift(n) => ((shift_entry(0, i, j) + shift_entry(
                n as int,
                i,
                j,
            )) % 2) as u8,
        }
    }
}

/// The block `a` holds exactly the entries of the shape `c`.
pub open spec fn block_is(a: Block, c: Circulant) -> bool {
    forall|i: int, j: int| 0 <= i < M && 0 <= j < M ==> (#[trigger] a[i][j]) == c.entry(i, j)
}

/// Returns the all-zero block.
pub fn z() -> (a: Block)
    ensures
        block_is(a, Circulant::Zero),
{
    [[0u8; 32]; 32]
}

/// Returns the `n`-th right circular shift of the identity.
pub fn p(n: usize) -> (a: Block)
    ensures
        block_is(a, Circulant::Shift(n)),
{
    let mut a = z();
    let s: usize = n % M;
    for i in 0usize..M
        invariant
            s == n % 32,
            forall|r: int, j: int|
                0 <= r < i && 0 <= j < M ==> (#[trigger] a[r][j]) == shift_entry(n as int, r, j),
            forall|r: int, j: int| i <= r < M && 0 <= j < M ==> (#[trigger] a[r][j]) == 0,
    {
        let c: usize = (i + s) % M;
        a[i][c] = 1;
    }
    a
}

/// Returns the identity block.
pub fn i() -> (a: Block)
    ensures
        block_is(a, Circulant::Shift(0)),
{
    p(0)
}

/// Returns the identity plus its `n`-th right circular shift, modulo 2.
pub fn ip(n: usize) -> (a: Block)
    ensures
        block_is(a, Circulant::IdentityPlusShift(n)),
{
    let mut a = i();
    let b = p(n);
    let ghost id = a;
    for i in 0usize..M
        invariant
            block_is(id, Circulant::Shift(0)),
            block_is(b, Circulant::Shift(n)),
            forall|r: int, j: int|
                0 <= r < i && 0 <= j < M ==> (#[trigger] a[r][j]) == Circulant::IdentityPlusShift(
                    n,
                ).entry(r, j),
            forall|r: int, j: int| i <= r < M && 0 <= j < M ==> (#[trigger] a[r][j]) == id[r][j],
    {
        for j in 0usize..M
            invariant
                i < M,
                block_is(id, Circulant::Shift(0)),
                block_is(b, Circulant::Shift(n)),
                forall|r: int, c: int|
                    0 <= r < i && 0 <= c < M ==> (#[trigger] a[r][c])
                        == Circulant::IdentityPlusShift(n).entry(r, c),
                forall|c: int|
                    0 <= c < j ==> (#[trigger] a[i as int][c]) == Circulant::IdentityPlusShift(
                        n,
                    ).entry(i as int, c),
                forall|c: int| j <= c < M ==> (#[trigger] a[i as int][c]) == id[i as int][c],
                forall|r: int, c: int|
                    i < r < M && 0 <= c < M ==> (#[trigger] a[r][c]) == id[r][c],
        {
            a[i][j] = (a[i][j] + b[i][j]) % 2;
        }
    }
    a
}

/// The shape of the sub-block in block row `br` and block column `bc` of the
/// parity check matrix H_128x256 of CCSDS 231.1-O-1.
pub open spec fn prototype(br: int, bc: int) -> Circulant {
    if br == 0 {
        if bc == 0 {
            Circulant::IdentityPlusShift(31)
        } else if bc == 1 {
            Circulant::Shift(15)
        } else if bc == 2 {
            Circulant::Shift(25)
        } else if bc == 3 {
            Circulant::Shift(0)
        } else if bc == 4 {
            Circulant::Zero
        } else if bc == 5 {
            Circulant::Shift(20)
        } else if bc == 6 {
            Circulant::Shift(12)
        } else {
            Circulant::Shift(0)
        }
    } else if br == 1 {
        if bc == 0 {
            Circulant::Shift(28)
        } else if bc == 1 {
            Circulant::IdentityPlusShift(30)
        } else if bc == 2 {
            Circulant::Shift(29)
        } else if bc == 3 {
            Circulant::Shift(24)
        } else if bc == 4 {
            Circulant::Shift(0)
        } else if bc == 5 {
            Circulant::Zero
        } else if bc == 6 {
            Circulant::Shift(1)
        } else {
            Circulant::Shift(20)
        }
    } else if br == 2 {
        if bc == 0 {
            Circulant::Shift(8)
        } else if bc == 1 {
            Circulant::Shift(0)
        } else if bc == 2 {
            Circulant::IdentityPlusShift(28)
        } else if bc == 3 {
            Circulant::Shift(1)
        } else if bc == 4 {
            Circulant::Shift(29)
        } else if bc == 5 {
            Circulant::Shift(0)
        } else if bc == 6 {
            Circulant::Zero
        } else {
            Circulant::Shift(21)
        }
    } else {
        if bc == 0 {
            Circulant::Shift(18)
        } else if bc == 1 {
            Circulant::Shift(30)
        } else if bc == 2 {
            Circulant::Shift(0)
        } else if bc == 3 {
            Circulant::IdentityPlusShift(30)
        } else if bc == 4 {
            Circulant::Shift(25)
        } else if bc == 5 {
            Circulant::Shift(26)
        } else if bc == 6 {
            Circulant::Shift(0)
        } else {
            Circulant::Zero
        }
    }
}

/// Entry `(i, a)` of the parity check matrix: row `i` (a check), column `a`
/// (a coded bit).
pub open spec fn h_entry(i: int, a: int) -> u8 {
    prototype(i / 32, a / 32).entry(i % 32, a % 32)
}

/// Row `i` of the matrix `h`.
pub open spec fn row(h: [[u8; N]; K], i: int) -> Seq<u8> {
    h[i]@
}

/// Column `a` of the matrix `h`.
pub open spec fn column(h: [[u8; N]; K], a: int) -> Seq<u8> {
    Seq::new(K as nat, |i: int| h[i][a])
}

/// `list` holds, in ascending order, the positions below `n` at which `bits`
/// holds a one, and nothing else.
pub open spec fn lists_ones_below(list: Seq<usize>, bits: Seq<u8>, n: int) -> bool {
    &&& forall|k: int| 0 <= k < list.len() ==> (#[trigger] list[k]) < n && bits[list[k] as int] == 1
    &&& forall|k: int, l: int| 0 <= k < l < list.len() ==> list[k] < list[l]
    &&& forall|a: int| 0 <= a < n && #[trigger] bits[a] == 1 ==> list.contains(a as usize)
}

/// `list` is the ascending sequence of all positions at which `bits` holds a
/// one.
pub open spec fn lists_ones(list: Seq<usize>, bits: Seq<u8>) -> bool {
    lists_ones_below(list, bits, bits.len() as int)
}

/// A list of the ones below `n` becomes a list of the ones below `n + 1` by
/// appending `n` where `bits[n]` is one, and as it stands where it is not.
proof fn lemma_lists_ones_step(list: Seq<usize>, bits: Seq<u8>, n: int)
    requires
        0 <= n < bits.len(),
        n <= usize::MAX,
        lists_ones_below(list, bits, n),
    ensures
        bits[n] == 1 ==> lists_ones_below(list.push(n as usize), bits, n + 1),
        bits[n] != 1 ==> lists_ones_below(list, bits, n + 1),
{
    if bits[n] == 1 {
        let longer = list.push(n as usize);
        assert forall|a: int| 0 <= a < n + 1 && #[trigger] bits[a] == 1 implies longer.contains(
            a as usize,
        ) by {
            if a < n {
                let k = choose|k: int| 0 <= k < list.len() && list[k] == a as usize;
                assert(longer[k] == a as usize);
            } else {
                assert(longer[list.len() as int] == a as usize);
            }
        }
    }
}

/// The number of positions below `n` at which `bits` holds a one and the
/// word `x` a set bit.
pub open spec fn overlap(bits: Seq<u8>, x: Seq<bool>, n: int) -> nat
    decreases n,
{
    if n <= 0 {
        0
    } else {
        overlap(bits, x, n - 1) + (if bits[n - 1] == 1 && x[n - 1] {
            1nat
        } else {
            0nat
        })
    }
}

/// Parity check `i` of `h` holds for the word `x`: an even number of the
/// coded bits that take part in the check are set.
pub open spec fn check_satisfied(h: [[u8; N]; K], x: Seq<bool>, i: int) -> bool {
    overlap(row(h, i), x, N as int) % 2 == 0
}

/// Every parity check of `h` holds for the word `x`.
pub open spec fn codeword(h: [[u8; N]; K], x: Seq<bool>) -> bool {
    forall|i: int| 0 <= i < K ==> check_satisfied(h, x, i)
}

/// A parity check matrix together with its connectivity: for each check the
/// coded bits that take part in it, and for each coded bit its checks.
pub struct ParityMatrix {
    pub h: [[u8; N]; K],
    pub conns_row: Vec<Vec<usize>>,
    pub conns_col: Vec<Vec<usize>>,
}

impl ParityMatrix {
    /// The matrix is H_128x256.
    pub open spec fn is_standard(&self) -> bool {
        forall|i: int, a: int| 0 <= i < K && 0 <= a < N ==> (#[trigger] self.h[i][a]) == h_entry(i, a)
    }

    /// The two connectivity lists are those of the matrix: `conns_row[i]`
    /// lists in ascending order the columns in which row `i` holds a one,
    /// `conns_col[a]` the rows in which column `a` holds a one.
    pub open spec fn connected(&self) -> bool {
        &&& self.conns_row@.len() == K
        &&& self.conns_col@.len() == N
        &&& forall|i: int| 0 <= i < K ==> lists_ones(#[trigger] self.conns_row[i]@, row(self.h, i))
        &&& forall|a: int|
            0 <= a < N ==> lists_ones(#[trigger] self.conns_col[a]@, column(self.h, a))
    }

    /// Both sides of the connectivity hold the same edges: coded bit `a`
    /// stands in the list of check `i` exactly if check `i` stands in the
    /// list of coded bit `a`.
    pub open spec fn edges_agree(&self) -> bool {
        forall|i: int, a: int|
            0 <= i < K && 0 <= a < N ==> (#[trigger] self.conns_row[i]@.contains(a as usize)
                <==> self.conns_col[a]@.contains(i as usize))
    }

    /// Computes the parity check matrix H_128x256 and its connectivity.
    pub fn new() -> (pm: ParityMatrix)
        ensures
            pm.is_standard(),
            pm.connected(),
            pm.edges_agree(),
    {
        let mut h = [[0u8; 256]; 128];
        let a = [
            [ip(31), p(15), p(25), p(0), z(), p(20), p(12), i()],
            [p(28), ip(30), p(29), p(24), i(), z(), p(1), p(20)],
            [p(8), p(0), ip(28), p(1), p(29), i(), z(), p(21)],
            [p(18), p(30), p(0), ip(30), p(25), p(26), i(), z()],
        ];
        assert(forall|br: int, bc: int|
            0 <= br < BC && 0 <= bc < BR ==> block_is(#[trigger] a[br][bc], prototype(br, bc)));

        for i in 0usize..K
            invariant
                forall|br: int, bc: int|
                    0 <= br < BC && 0 <= bc < BR ==> block_is(
                        #[trigger] a[br][bc],
                        prototype(br, bc),
                    ),
                forall|r: int, c: int|
                    0 <= r < i && 0 <= c < N ==> (#[trigger] h[r][c]) == h_entry(r, c),
        {
            for j in 0usize..N
                invariant
                    i < K,
                    forall|br: int, bc: int|
                        0 <= br < BC && 0 <= bc < BR ==> block_is(
                            #[trigger] a[br][bc],
                            prototype(br, bc),
                        ),
                    forall|r: int, c: int|
                        0 <= r < i && 0 <= c < N ==> (#[trigger] h[r][c]) == h_entry(r, c),
                    forall|c: int| 0 <= c < j ==> (#[trigger] h[i as int][c]) == h_entry(i as int, c),
            {
                h[i][j] = a[i / M][j / M][i % M][j % M];
            }
        }

        let mut conns_row: Vec<Vec<usize>> = Vec::new();
        let mut conns_col: Vec<Vec<usize>> = Vec::new();

        for i in 0usize..K
            invariant
                conns_row@.len() == i,
                conns_col@.len() == (if i == 0 { 0usize } else { N }),
                forall|r: int| 0 <= r < i ==> lists_ones(#[trigger] conns_row[r]@, row(h, r)),
                forall|c: int|
                    0 <= c < conns_col@.len() ==> lists_ones_below(
                        #[trigger] conns_col[c]@,
                        column(h, c),
                        i as int,
                    ),
        {
            conns_row.push(Vec::new());
            for a in 0usize..N
                invariant
                    i < K,
                    conns_row@.len() == i + 1,
                    conns_col@.len() == (if i == 0 { a } else { N }),
                    forall|r: int| 0 <= r < i ==> lists_ones(#[trigger] conns_row[r]@, row(h, r)),
                    lists_ones_below(conns_row[i as int]@, row(h, i as int), a as int),
                    forall|c: int|
                        0 <= c < a ==> lists_ones_below(
                            #[trigger] conns_col[c]@,
                            column(h, c),
                            i + 1,
                        ),
                    forall|c: int|
                        a <= c < conns_col@.len() ==> lists_ones_below(
                            #[trigger] conns_col[c]@,
                            column(h, c),
                            i as int,
                        ),
            {
                if i == 0 {
                    conns_col.push(Vec::new());
                }
                proof {
                    lemma_lists_ones_step(conns_row[i as int]@, row(h, i as int), a as int);
                    lemma_lists_ones_step(conns_col[a as int]@, column(h, a as int), i as int);
                }
                if h[i][a] == 1 {
                    conns_row[i].push(a);
                    conns_col[a].push(i);
                }
            }
        }

        let pm = ParityMatrix { h: h, conns_row: conns_row, conns_col: conns_col };
        proof {
            assert forall|i: int, a: int| 0 <= i < K && 0 <= a < N implies (
            #[trigger] pm.conns_row[i]@.contains(a as usize) <==> pm.conns_col[a]@.contains(
                i as usize,
            )) by {
                lemma_connectivity_consistent(pm, i, a);
            }
        }
        pm
    }

    /// Tells whether `x` is a codeword: whether every parity check holds.
    ///
    /// `x` holds the hard decisions on the coded bits: `x[a]` is set where
    /// bit `a` is taken to be one, which for a log likelihood ratio means
    /// that it is not positive.
    pub fn is_codeword(&self, x: &[bool; N]) -> (ok: bool)
        ensures
            ok == codeword(self.h, x@),
    {
        // For each parity check row
        for i in 0usize..K
            invariant
                forall|r: int| 0 <= r < i ==> check_satisfied(self.h, x@, r),
        {
            // Keep track of the running parity sum
            let mut parity: u32 = 0;

            // For each coded bit
            for a in 0usize..N
                invariant
                    i < K,
                    parity <= a,
                    parity == overlap(row(self.h, i as int), x@, a as int),
            {
                // If this edge is in the parity check matrix and this bit
                // is 1, add it to the parity sum
                if self.h[i][a] == 1 && x[a] {
                    parity += 1;
                }
            }

            // Stop as soon as any parity check is not satisfied
            if parity % 2 != 0 {
                assert(!check_satisfied(self.h, x@, i as int));
                return false;
            }
        }

        // All parity checks were satisfied
        true
    }
}

} // verus!
