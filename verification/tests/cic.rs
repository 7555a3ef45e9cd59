//! The cascaded integrator-comb filter.

use m2ground::sdr::cic::CIC;

/// Try 1st order R=2 CIC, a simple moving average filter in practice
#[test]
fn test_cic_1_2() {
    let mut cic = CIC::new(1, 2);
    let x = vec![1i16, 1, 1, 1, 1, 1, 1, 1, 1, 1, 1, 1, 1, 1, 1, 1];
    let y = cic.process(&x);
    assert_eq!(y, vec![1i16, 1, 1, 1, 1, 1, 1, 1]);

    let x = vec![1i16, 3, 1, 3, 1, 3, 1, 3, 1, 3, 1, 3, 1, 3, 1, 3];
    let mut cic = CIC::new(1, 2);
    let y = cic.process(&x);
    assert_eq!(y, vec![2i16, 2, 2, 2, 2, 2, 2, 2]);
}

/// Try a bigger filter
#[test]
fn test_cic_2_4() {
    let x = vec![1i16, 3, 1, 3, 1, 3, 1, 3, 1, 3, 1, 3, 1, 3, 1, 3];
    let mut cic = CIC::new(2, 4);
    let y = cic.process(&x);
    assert_eq!(y, vec![1i16, 2, 2, 2]);
}

/// Now we're cooking with gas!
#[test]
fn test_cic_5_8() {
    let mut x: Vec<i16> = Vec::with_capacity(8 * 8);
    for _ in 0..16 {
        x.push(2);
        x.push(4);
        x.push(6);
        x.push(4);
    }
    let mut cic = CIC::new(5, 8);
    let y = cic.process(&x);
    assert_eq!(y, vec![0i16, 1, 3, 3, 4, 4, 4, 4]);
}

#[test]
fn test_cic_empty_block() {
    let mut cic = CIC::new(3, 4);
    let y = cic.process(&Vec::new());
    assert_eq!(y, Vec::<i16>::new());
}

#[test]
fn test_cic_keeps_its_state_between_blocks() {
    let x = vec![1i16, 3, 1, 3, 1, 3, 1, 3, 1, 3, 1, 3, 1, 3, 1, 3];
    let mut whole = CIC::new(2, 4);
    let expected = whole.process(&x);
    let mut parts = CIC::new(2, 4);
    let mut y = parts.process(&x[..8].to_vec());
    y.extend(parts.process(&x[8..].to_vec()));
    assert_eq!(y, expected);
}

#[test]
fn test_cic_ratio_one_passes_samples_through() {
    // With R = 1 the gain is one: no shift, and after the first sample the
    // comb takes away what the integrator has gathered before.
    let mut cic = CIC::new(1, 1);
    let y = cic.process(&vec![5i16, -7, 100, 0, -32768, 32767]);
    assert_eq!(y, vec![5i16, -7, 100, 0, -32768, 32767]);
}

#[test]
fn test_cic_gain_is_rounded_up() {
    // R = 3, Q = 1: the gain 3 takes two bits, so a constant input c settles
    // at 3c / 4.
    let mut cic = CIC::new(1, 3);
    let y = cic.process(&vec![100i16; 12]);
    assert_eq!(y, vec![75i16, 75, 75, 75]);
}

#[test]
fn test_cic_negative_samples_shift_down() {
    let mut cic = CIC::new(1, 2);
    let y = cic.process(&vec![-1i16, -2, -3, -4]);
    // (-3) >> 1 and (-7) >> 1, rounded towards minus infinity.
    assert_eq!(y, vec![-2i16, -4]);
}

#[test]
fn test_cic_largest_gain() {
    // Q log2 R = 20 is the most that is taken.
    let mut cic = CIC::new(20, 2);
    let y = cic.process(&vec![0i16; 8]);
    assert_eq!(y, vec![0i16; 4]);
    let mut cic = CIC::new(1, 1 << 20);
    let y = cic.process(&vec![1i16; 1 << 20]);
    assert_eq!(y, vec![1i16]);
}

#[test]
fn test_cic_registers_wrap() {
    // Order 2, ratio 1024: the second integrator runs far past 16 bits and
    // the output still comes out scaled.
    let mut cic = CIC::new(2, 1024);
    let y = cic.process(&vec![2047i16; 4096]);
    assert_eq!(y.len(), 4);
    assert_eq!(y[3], 2047);
}
