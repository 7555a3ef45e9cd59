//! The parity check matrix, its connectivity and the codeword test.

use m2ground::ldpcd::parity_check_matrix::{i, ip, p, z, ParityMatrix, K, N};

/// A codeword of the code, as log likelihood ratios of magnitude one.
fn codeword_llrs() -> [f64; N] {
    [
        -1.0, 1.0, -1.0, 1.0, 1.0, -1.0, -1.0, -1.0,
        1.0, 1.0, 1.0, -1.0, 1.0, -1.0, 1.0, -1.0,
        1.0, -1.0, -1.0, 1.0, 1.0, -1.0, -1.0, 1.0,
        1.0, 1.0, 1.0, 1.0, 1.0, 1.0, 1.0, -1.0,
        1.0, -1.0, 1.0, 1.0, 1.0, 1.0, 1.0, 1.0,
        1.0, 1.0, 1.0, 1.0, -1.0, -1.0, 1.0, 1.0,
        1.0, 1.0, 1.0, 1.0, 1.0, 1.0, -1.0, 1.0,
        1.0, -1.0, -1.0, -1.0, -1.0, 1.0, 1.0, -1.0,
        -1.0, -1.0, 1.0, 1.0, 1.0, -1.0, 1.0, -1.0,
        1.0, -1.0, 1.0, 1.0, 1.0, -1.0, -1.0, -1.0,
        1.0, -1.0, 1.0, 1.0, 1.0, -1.0, -1.0, -1.0,
        -1.0, 1.0, -1.0, 1.0, 1.0, 1.0, 1.0, 1.0,
        -1.0, 1.0, -1.0, 1.0, 1.0, 1.0, 1.0, 1.0,
        1.0, -1.0, -1.0, -1.0, -1.0, -1.0, -1.0, -1.0,
        1.0, -1.0, 1.0, 1.0, -1.0, 1.0, 1.0, 1.0,
        -1.0, -1.0, -1.0, -1.0, 1.0, -1.0, -1.0, 1.0,
        1.0, 1.0, 1.0, -1.0, -1.0, -1.0, -1.0, 1.0,
        1.0, 1.0, -1.0, 1.0, 1.0, 1.0, 1.0, -1.0,
        1.0, -1.0, 1.0, -1.0, -1.0, 1.0, -1.0, -1.0,
        -1.0, 1.0, -1.0, 1.0, -1.0, 1.0, -1.0, 1.0,
        -1.0, -1.0, 1.0, -1.0, 1.0, 1.0, -1.0, 1.0,
        -1.0, 1.0, -1.0, -1.0, -1.0, -1.0, -1.0, -1.0,
        1.0, -1.0, 1.0, 1.0, 1.0, 1.0, -1.0, -1.0,
        -1.0, -1.0, 1.0, -1.0, -1.0, -1.0, -1.0, -1.0,
        1.0, 1.0, -1.0, 1.0, -1.0, -1.0, -1.0, 1.0,
        1.0, -1.0, 1.0, -1.0, 1.0, -1.0, 1.0, 1.0,
        -1.0, -1.0, -1.0, -1.0, -1.0, -1.0, -1.0, 1.0,
        1.0, 1.0, 1.0, -1.0, -1.0, 1.0, 1.0, 1.0,
        -1.0, -1.0, -1.0, 1.0, 1.0, -1.0, -1.0, 1.0,
        1.0, -1.0, 1.0, 1.0, -1.0, 1.0, -1.0, 1.0,
        1.0, 1.0, 1.0, -1.0, -1.0, 1.0, -1.0, 1.0,
        1.0, -1.0, -1.0, 1.0, -1.0, -1.0, -1.0, -1.0,
    ]
}

/// The hard decisions on a vector of log likelihood ratios: a value that is
/// not positive stands for a one.
fn hard_decisions(llrs: &[f64; N]) -> [bool; N] {
    let mut x = [false; N];
    for a in 0..N {
        x[a] = llrs[a] <= 0.0;
    }
    x
}

#[test]
fn test_i() {
    let ii = i();
    assert!(ii[0][0] == 1);
    assert!(ii[27][27] == 1);
}

#[test]
fn test_p() {
    let pp = p(5);
    assert!(pp[0][5] == 1);
    assert!(pp[27][0] == 1);
}

#[test]
fn test_ip() {
    let ipip = ip(5);
    assert!(ipip[0][0] == 1);
    assert!(ipip[0][5] == 1);
}

#[test]
fn test_h() {
    let pm = ParityMatrix::new();
    let hh90: [u8; N] = [
        0, 0, 1, 0, 0, 0, 0, 0, 0, 0, 0, 0, 0, 0, 0, 0,
        0, 0, 0, 0, 0, 0, 0, 0, 0, 0, 0, 0, 0, 0, 0, 0,
        0, 0, 0, 0, 0, 0, 0, 0, 0, 0, 0, 0, 0, 0, 0, 0,
        0, 0, 0, 0, 0, 0, 0, 0, 0, 0, 1, 0, 0, 0, 0, 0,
        0, 0, 0, 0, 0, 0, 0, 0, 0, 0, 0, 0, 0, 0, 0, 0,
        0, 0, 0, 0, 0, 0, 1, 0, 0, 0, 1, 0, 0, 0, 0, 0,
        0, 0, 0, 0, 0, 0, 0, 0, 0, 0, 0, 0, 0, 0, 0, 0,
        0, 0, 0, 0, 0, 0, 0, 0, 0, 0, 0, 1, 0, 0, 0, 0,
        0, 0, 0, 0, 0, 0, 0, 0, 0, 0, 0, 0, 0, 0, 0, 0,
        0, 0, 0, 0, 0, 0, 0, 1, 0, 0, 0, 0, 0, 0, 0, 0,
        0, 0, 0, 0, 0, 0, 0, 0, 0, 0, 0, 0, 0, 0, 0, 0,
        0, 0, 0, 0, 0, 0, 0, 0, 0, 0, 1, 0, 0, 0, 0, 0,
        0, 0, 0, 0, 0, 0, 0, 0, 0, 0, 0, 0, 0, 0, 0, 0,
        0, 0, 0, 0, 0, 0, 0, 0, 0, 0, 0, 0, 0, 0, 0, 0,
        0, 0, 0, 0, 0, 0, 0, 0, 0, 0, 0, 0, 0, 0, 0, 1,
        0, 0, 0, 0, 0, 0, 0, 0, 0, 0, 0, 0, 0, 0, 0, 0,
    ];
    for a in 0..N {
        assert!(pm.h[90][a] == hh90[a]);
    }
}

#[test]
fn test_connections() {
    let pm = ParityMatrix::new();
    assert!(pm.conns_row[10] == [9, 10, 57, 67, 106, 190, 214, 234]);
    assert!(pm.conns_col[90] == [1, 61, 90, 94, 122]);
}

#[test]
fn test_is_codeword() {
    let mut x: [f64; N] = codeword_llrs();
    let pm = ParityMatrix::new();
    assert!(pm.is_codeword(&hard_decisions(&x)));
    x[100] = -x[100];
    assert!(!pm.is_codeword(&hard_decisions(&x)));
}

#[test]
fn test_code_parameters() {
    assert_eq!(K, 128);
    assert_eq!(N, 256);
    assert!(K < N);
    assert_eq!(N % 8, 0);
}

#[test]
fn test_z_is_all_zero() {
    let zz = z();
    for r in 0..32 {
        for c in 0..32 {
            assert_eq!(zz[r][c], 0);
        }
    }
}

#[test]
fn test_p_has_one_shifted_one_per_row() {
    for n in [0usize, 1, 5, 31, 32, 33, 100, usize::MAX] {
        let pp = p(n);
        for r in 0..32 {
            for c in 0..32 {
                let expected: u8 = if c == (r + n % 32) % 32 { 1 } else { 0 };
                assert_eq!(pp[r][c], expected);
            }
        }
    }
}

#[test]
fn test_i_is_the_identity() {
    let ii = i();
    for r in 0..32 {
        for c in 0..32 {
            let expected: u8 = if r == c { 1 } else { 0 };
            assert_eq!(ii[r][c], expected);
        }
    }
    assert_eq!(p(32), ii);
}

#[test]
fn test_ip_adds_modulo_two() {
    let ipip = ip(31);
    for r in 0..32 {
        for c in 0..32 {
            let expected: u8 = if c == r || c == (r + 31) % 32 { 1 } else { 0 };
            assert_eq!(ipip[r][c], expected);
        }
    }
    // The identity added to itself cancels.
    assert_eq!(ip(0), z());
    assert_eq!(ip(32), z());
}

#[test]
fn test_h_is_made_of_the_blocks() {
    let pm = ParityMatrix::new();
    let corner = ip(31);
    let beside = p(15);
    let below = p(28);
    let last = p(21);
    for r in 0..32 {
        for c in 0..32 {
            assert_eq!(pm.h[r][c], corner[r][c]);
            assert_eq!(pm.h[r][32 + c], beside[r][c]);
            assert_eq!(pm.h[32 + r][c], below[r][c]);
            assert_eq!(pm.h[64 + r][224 + c], last[r][c]);
            assert_eq!(pm.h[r][128 + c], 0);
            assert_eq!(pm.h[96 + r][224 + c], 0);
        }
    }
}

#[test]
fn test_connections_list_the_ones_in_order() {
    let pm = ParityMatrix::new();
    assert_eq!(pm.conns_row.len(), K);
    assert_eq!(pm.conns_col.len(), N);
    for r in 0..K {
        let expected: Vec<usize> = (0..N).filter(|&a| pm.h[r][a] == 1).collect();
        assert_eq!(pm.conns_row[r], expected);
    }
    for a in 0..N {
        let expected: Vec<usize> = (0..K).filter(|&r| pm.h[r][a] == 1).collect();
        assert_eq!(pm.conns_col[a], expected);
    }
}

#[test]
fn test_connections_agree() {
    let pm = ParityMatrix::new();
    for r in 0..K {
        for a in 0..N {
            let in_row = pm.conns_row[r].contains(&a);
            let in_col = pm.conns_col[a].contains(&r);
            assert_eq!(in_row, in_col);
            assert_eq!(in_row, pm.h[r][a] == 1);
        }
    }
}

#[test]
fn test_weights() {
    let pm = ParityMatrix::new();
    let mut row_edges: usize = 0;
    for r in 0..K {
        assert_eq!(pm.conns_row[r].len(), 8);
        row_edges += pm.conns_row[r].len();
    }
    let mut col_edges: usize = 0;
    for a in 0..N {
        let expected: usize = if a < 128 { 5 } else { 3 };
        assert_eq!(pm.conns_col[a].len(), expected);
        col_edges += pm.conns_col[a].len();
    }
    assert_eq!(row_edges, 1024);
    assert_eq!(col_edges, 1024);
}

#[test]
fn test_all_zero_word_is_a_codeword() {
    let pm = ParityMatrix::new();
    assert!(pm.is_codeword(&[false; N]));
    // Every check has eight bits, so the all-one word passes too.
    assert!(pm.is_codeword(&[true; N]));
}

#[test]
fn test_zero_llr_counts_as_one() {
    let mut llrs = [1.0f64; N];
    llrs[17] = 0.0;
    let x = hard_decisions(&llrs);
    assert!(x[17]);
    assert!(!ParityMatrix::new().is_codeword(&x));
}

#[test]
fn test_is_codeword_goes_by_sign_alone() {
    let pm = ParityMatrix::new();
    let llrs = codeword_llrs();
    for scale in [0.001f64, 0.5, 3.0, 1.0e9] {
        let mut scaled = llrs;
        for a in 0..N {
            scaled[a] = scale * llrs[a];
        }
        assert_eq!(hard_decisions(&scaled), hard_decisions(&llrs));
        assert!(pm.is_codeword(&hard_decisions(&scaled)));
        scaled[3] = -scaled[3];
        assert!(!pm.is_codeword(&hard_decisions(&scaled)));
    }
}

#[test]
fn test_single_flip_fails_the_checks_of_that_bit() {
    let pm = ParityMatrix::new();
    let word = hard_decisions(&codeword_llrs());
    for a in 0..N {
        let mut flipped = word;
        flipped[a] = !flipped[a];
        assert!(!pm.is_codeword(&flipped));
        for r in 0..K {
            let mut parity: usize = 0;
            for &b in &pm.conns_row[r] {
                if flipped[b] {
                    parity += 1;
                }
            }
            assert_eq!(parity % 2 != 0, pm.conns_col[a].contains(&r));
        }
        flipped[a] = !flipped[a];
        assert!(pm.is_codeword(&flipped));
    }
}
