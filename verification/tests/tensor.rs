use cnn_core::tensor::{argmax, gt_bits, is_nan_bits, shuffle, Rng, Vol, MIN_BITS, ZERO_BITS};

fn bits(v: &[f32]) -> Vec<u32> {
    v.iter().map(|x| x.to_bits()).collect()
}

#[test]
fn zero_and_min_bit_patterns() {
    assert_eq!(ZERO_BITS, 0.0f32.to_bits());
    assert_eq!(MIN_BITS, f32::MIN.to_bits());
}

#[test]
fn gt_bits_follows_float_order() {
    let cases: [(f32, f32); 10] = [
        (2.0, 1.0),
        (1.0, 2.0),
        (-1.0, -2.0),
        (-2.0, -1.0),
        (0.0, -0.0),
        (-0.0, 0.0),
        (f32::INFINITY, f32::MAX),
        (f32::MIN, f32::NEG_INFINITY),
        (1e-45, 0.0),
        (-1e-45, 0.0),
    ];
    for (a, b) in cases {
        assert_eq!(gt_bits(a.to_bits(), b.to_bits()), a > b, "{} > {}", a, b);
    }
    assert!(!gt_bits(f32::NAN.to_bits(), 1.0f32.to_bits()));
    assert!(!gt_bits(1.0f32.to_bits(), f32::NAN.to_bits()));
    assert!(is_nan_bits(f32::NAN.to_bits()));
    assert!(is_nan_bits((-f32::NAN).to_bits()));
    assert!(!is_nan_bits(f32::INFINITY.to_bits()));
}

#[test]
fn argmax_takes_first_largest() {
    assert_eq!(argmax(&bits(&[1.0, 3.0, 3.0, 2.0])), 1);
    assert_eq!(argmax(&bits(&[-1.0, -3.0])), 0);
    assert_eq!(argmax(&bits(&[0.1, 0.2, 0.7])), 2);
    assert_eq!(argmax(&[]), 0);
}

#[test]
fn argmax_with_nans() {
    assert_eq!(argmax(&bits(&[f32::NAN, 5.0, 9.0])), 0);
    assert_eq!(argmax(&bits(&[1.0, f32::NAN, 5.0])), 2);
    assert_eq!(argmax(&bits(&[7.0, f32::NAN, 5.0])), 0);
}

#[test]
fn vol_zeros_and_indexing() {
    let v = Vol::zeros(2, 3, 4);
    assert_eq!((v.c, v.h, v.w), (2, 3, 4));
    assert_eq!(v.len(), 24);
    assert!(!v.is_empty());
    assert!(v.data.iter().all(|&b| b == ZERO_BITS));
    assert_eq!(v.idx(0, 0, 0), 0);
    assert_eq!(v.idx(1, 2, 3), 23);
    assert_eq!(v.idx(1, 0, 0), 12);
    assert_eq!(v.idx(0, 1, 0), 4);
    assert!(Vol::zeros(0, 0, 0).is_empty());
}

#[test]
fn vol_get_reads_its_cell() {
    let mut v = Vol::zeros(2, 2, 3);
    v.data = (0..12u32).collect();
    assert_eq!(v.get(1, 1, 2), 11);
    assert_eq!(v.get(0, 1, 0), 3);
    assert_eq!(v.get(1, 0, 1), 7);
}

#[test]
fn vol_layout_is_a_bijection() {
    let v = Vol::zeros(3, 4, 5);
    let mut seen = vec![false; v.len()];
    for c in 0..3 {
        for y in 0..4 {
            for x in 0..5 {
                let i = v.idx(c, y, x);
                assert!(i < v.len());
                assert!(!seen[i]);
                seen[i] = true;
            }
        }
    }
    assert!(seen.iter().all(|&s| s));
}

#[test]
fn rng_first_draws_are_xorshift_star() {
    let mut r = Rng::new(0);
    assert_eq!(r.next_u64(), 0x0d83_b3e2_9a21_487a);
    assert_eq!(r.next_u64(), 0x54c4_4c79_f1fe_9d67);
}

#[test]
fn rng_is_determined_by_its_seed() {
    let mut a = Rng::new(123);
    let mut b = Rng::new(123);
    let mut c = Rng::new(124);
    let xa: Vec<u64> = (0..8).map(|_| a.next_u64()).collect();
    let xb: Vec<u64> = (0..8).map(|_| b.next_u64()).collect();
    let xc: Vec<u64> = (0..8).map(|_| c.next_u64()).collect();
    assert_eq!(xa, xb);
    assert_ne!(xa, xc);
}

#[test]
fn rng_below_stays_below() {
    let mut r = Rng::new(42);
    assert_eq!(r.below(10), 4);
    for n in 1..200usize {
        assert!(r.below(n) < n);
    }
    assert_eq!(r.below(1), 0);
}

#[test]
fn shuffle_permutes_and_draws_once_per_position() {
    let mut v: Vec<u32> = (0..50).collect();
    let mut rng = Rng::new(7);
    shuffle(&mut v, &mut rng);
    let mut sorted = v.clone();
    sorted.sort();
    assert_eq!(sorted, (0..50).collect::<Vec<u32>>());
    assert_ne!(v, (0..50).collect::<Vec<u32>>());

    let mut w: Vec<u32> = (0..50).collect();
    let mut rng2 = Rng::new(7);
    for i in (1..w.len()).rev() {
        let j = rng2.below(i + 1);
        w.swap(i, j);
    }
    assert_eq!(v, w);
    assert_eq!(rng.next_u64(), rng2.next_u64());
}

#[test]
fn shuffle_of_short_vectors() {
    let mut rng = Rng::new(3);
    let mut probe = Rng::new(3);
    let mut empty: Vec<u8> = Vec::new();
    shuffle(&mut empty, &mut rng);
    assert!(empty.is_empty());
    let mut one = vec![9u8];
    shuffle(&mut one, &mut rng);
    assert_eq!(one, vec![9u8]);
    assert_eq!(rng.next_u64(), probe.next_u64());
}

#[test]
fn same_seed_same_draws_over_mixed_calls() {
    let mut a = Rng::new(2024);
    let mut b = Rng::new(2024);
    for n in 1..100usize {
        if n % 3 == 0 {
            assert_eq!(a.next_u64(), b.next_u64());
        } else {
            assert_eq!(a.below(n), b.below(n));
        }
    }
    // below(n) is the plain draw taken modulo n
    let mut c = Rng::new(5);
    let mut d = Rng::new(5);
    for n in 1..50usize {
        assert_eq!(c.below(n) as u64, d.next_u64() % n as u64);
    }
}
