use edit_distance::mismatch_naive;
use edit_distance::mismatch_simd;
use edit_distance::Mismatch;

/// A sequence of `len` bytes without long periods.
fn sample(len: usize, seed: u32) -> Vec<u8> {
    let mut state = seed;
    let mut out = Vec::with_capacity(len);
    for _ in 0..len {
        state = state.wrapping_mul(1103515245).wrapping_add(12345);
        out.push((state >> 16) as u8);
    }
    out
}

#[test]
fn naive_stops_at_first_difference() {
    assert_eq!(mismatch_naive(&[1u8, 2, 3, 4], &[1u8, 2, 9, 4]), 2);
    assert_eq!(mismatch_naive(&[1i32, 2, 3, 4], &[1i32, 2, 9, 4]), 2);
}

#[test]
fn simd_stops_at_first_difference() {
    assert_eq!(mismatch_simd(&[1u8, 2, 3, 4], &[1u8, 2, 9, 4]), 2);
    assert_eq!(<u8 as Mismatch>::mismatch(&[1, 2, 3, 4], &[1, 2, 9, 4]), 2);
    assert_eq!(<i8 as Mismatch>::mismatch(&[1, -2, 3, 4], &[1, -2, 9, 4]), 2);
}

#[test]
fn empty_sequences_share_nothing() {
    let none: [u8; 0] = [];
    assert_eq!(mismatch_naive(&none, &none), 0);
    assert_eq!(mismatch_simd(&none, &none), 0);
    assert_eq!(mismatch_simd(&none, &[1u8, 2]), 0);
    assert_eq!(<char as Mismatch>::mismatch(&[], &[]), 0);
}

#[test]
fn identical_forty_bytes() {
    let s = sample(40, 7);
    assert_eq!(mismatch_naive(&s, &s), 40);
    assert_eq!(mismatch_simd(&s, &s), 40);
    assert_eq!(<u8 as Mismatch>::mismatch(&s, &s), 40);
}

#[test]
fn one_is_prefix_of_the_other() {
    let s = sample(100, 3);
    let t = &s[..53];
    assert_eq!(mismatch_simd(&s, t), 53);
    assert_eq!(mismatch_simd(t, &s), 53);
    assert_eq!(mismatch_naive(&s, t), 53);
}

#[test]
fn trait_on_chars() {
    let s: Vec<char> = "hello".chars().collect();
    let t: Vec<char> = "help".chars().collect();
    assert_eq!(<char as Mismatch>::mismatch(&s, &t), 3);
    assert_eq!(<char as Mismatch>::mismatch(&s, &s), 5);
}

/// A difference at every place of sequences of every length up to 100: the
/// block-wise strategy must say what the lockstep walk says.
#[test]
fn strategies_agree() {
    for len in 0..100usize {
        let s = sample(len, 11);
        assert_eq!(mismatch_simd(&s, &s), len);
        for at in 0..len {
            let mut t = s.clone();
            t[at] = t[at].wrapping_add(1);
            assert_eq!(mismatch_naive(&s, &t), at);
            assert_eq!(mismatch_simd(&s, &t), at);
            let signed_s: Vec<i8> = s.iter().map(|&x| x as i8).collect();
            let signed_t: Vec<i8> = t.iter().map(|&x| x as i8).collect();
            assert_eq!(mismatch_simd(&signed_s, &signed_t), at);
        }
    }
}

/// Differences after the first one do not matter, in whichever block they lie.
#[test]
fn later_differences_are_not_seen() {
    let s = sample(90, 5);
    let mut t = s.clone();
    t[37] ^= 1;
    t[38] ^= 1;
    t[70] ^= 1;
    assert_eq!(mismatch_simd(&s, &t), 37);
    assert_eq!(mismatch_naive(&s, &t), 37);
}
