use cnn_core::layers::{conv_taps, padded_source, relu_inplace, relu_mask_grad, weight_index, MaxPool};
use cnn_core::tensor::Vol;

fn bits(v: &[f32]) -> Vec<u32> {
    v.iter().map(|x| x.to_bits()).collect()
}

fn floats(v: &[u32]) -> Vec<f32> {
    v.iter().map(|b| f32::from_bits(*b)).collect()
}

#[test]
fn maxpool_picks_max_and_routes_grad() {
    let mut p = MaxPool::new();
    let mut x = Vol::zeros(1, 2, 2);
    x.data = bits(&[1.0, 2.0, 3.0, 9.0]);
    let out = p.forward(&x);
    assert_eq!(floats(&out.data), vec![9.0]);
    let mut go = Vol::zeros(1, 1, 1);
    go.data = bits(&[5.0]);
    let gi = p.backward(&go);
    assert_eq!(floats(&gi.data), vec![0.0, 0.0, 0.0, 5.0]);
}

#[test]
fn maxpool_shapes_and_ties() {
    let mut p = MaxPool::new();
    let mut x = Vol::zeros(2, 3, 5);
    // channel 0: a tie between two entries of the first window
    let mut vals = vec![0.0f32; 30];
    vals[0] = 4.0;
    vals[1] = 4.0;
    vals[15 + 5 + 3] = 7.0; // channel 1, row 1, column 3
    x.data = bits(&vals);
    let out = p.forward(&x);
    assert_eq!((out.c, out.h, out.w), (2, 1, 2));
    assert_eq!(floats(&out.data), vec![4.0, 0.0, 0.0, 7.0]);
    let mut go = Vol::zeros(2, 1, 2);
    go.data = bits(&[1.0, 2.0, 3.0, 4.0]);
    let gi = p.backward(&go);
    assert_eq!((gi.c, gi.h, gi.w), (2, 3, 5));
    let g = floats(&gi.data);
    let mut expect = vec![0.0f32; 30];
    expect[0] = 1.0; // first of the tied entries
    expect[2] = 2.0; // all-zero window: its first entry
    expect[15] = 3.0;
    expect[15 + 5 + 3] = 4.0;
    assert_eq!(g, expect);
}

#[test]
fn maxpool_below_floor_gives_min() {
    let mut p = MaxPool::new();
    let mut x = Vol::zeros(1, 2, 2);
    x.data = bits(&[f32::NAN, f32::NEG_INFINITY, f32::NAN, f32::MIN]);
    let out = p.forward(&x);
    assert_eq!(out.data, vec![f32::MIN.to_bits()]);
    let mut go = Vol::zeros(1, 1, 1);
    go.data = bits(&[2.5]);
    let gi = p.backward(&go);
    assert_eq!(floats(&gi.data), vec![2.5, 0.0, 0.0, 0.0]);
}

#[test]
fn maxpool_nan_never_wins() {
    let mut p = MaxPool::new();
    let mut x = Vol::zeros(1, 2, 2);
    x.data = bits(&[-3.0, f32::NAN, -1.0, -2.0]);
    let out = p.forward(&x);
    assert_eq!(floats(&out.data), vec![-1.0]);
}

#[test]
fn gradient_reaches_only_the_pooled_entry() {
    let mut p = MaxPool::new();
    let mut x = Vol::zeros(3, 4, 4);
    x.data = (0..48u32).map(|i| (((i * 37) % 23) as f32 - 11.0).to_bits()).collect();
    let out = p.forward(&x);
    let mut go = Vol::zeros(3, 2, 2);
    go.data = (0..12u32).map(|i| (i as f32 + 1.0).to_bits()).collect();
    let gi = p.backward(&go);
    for c in 0..3 {
        for oy in 0..2 {
            for ox in 0..2 {
                let mut best = f32::MIN;
                let mut bj = 0;
                for j in 0..4 {
                    let v = f32::from_bits(x.get(c, oy * 2 + j / 2, ox * 2 + j % 2));
                    if v > best {
                        best = v;
                        bj = j;
                    }
                }
                assert_eq!(f32::from_bits(out.get(c, oy, ox)), best);
                for j in 0..4 {
                    let g = f32::from_bits(gi.get(c, oy * 2 + j / 2, ox * 2 + j % 2));
                    let expected = if j == bj { f32::from_bits(go.get(c, oy, ox)) } else { 0.0 };
                    assert_eq!(g, expected);
                }
            }
        }
    }
}

#[test]
fn new_pool_routes_nothing() {
    let p = MaxPool::new();
    let go = Vol::zeros(0, 0, 0);
    let gi = p.backward(&go);
    assert_eq!((gi.c, gi.h, gi.w), (0, 0, 0));
    assert!(gi.is_empty());
}

#[test]
fn conv_weight_index_layout() {
    assert_eq!(weight_index(1, 3, 2, 0, 1, 2), 23);
    assert_eq!(weight_index(8, 3, 1, 2, 0, 0), (1 * 8 + 2) * 9);
    let (out_c, in_c, k) = (4usize, 3usize, 3usize);
    let mut seen = vec![false; out_c * in_c * k * k];
    for oc in 0..out_c {
        for ic in 0..in_c {
            for ky in 0..k {
                for kx in 0..k {
                    let i = weight_index(in_c, k, oc, ic, ky, kx);
                    assert!(!seen[i]);
                    seen[i] = true;
                }
            }
        }
    }
    assert!(seen.iter().all(|&s| s));
}

#[test]
fn padded_source_skips_padding() {
    assert_eq!(padded_source(0, 0, 1, 5), None);
    assert_eq!(padded_source(0, 1, 1, 5), Some(0));
    assert_eq!(padded_source(4, 1, 1, 5), Some(4));
    assert_eq!(padded_source(4, 2, 1, 5), None);
    assert_eq!(padded_source(2, 0, 0, 3), Some(2));
    assert_eq!(padded_source(0, 0, 0, 0), None);
}

#[test]
fn relu_zeroes_negatives_only() {
    let mut v = bits(&[-1.0, 2.0, -0.0, f32::NAN, 0.5, f32::NEG_INFINITY]);
    let nan_bits = f32::NAN.to_bits();
    relu_inplace(&mut v);
    assert_eq!(v, vec![0u32, 2.0f32.to_bits(), (-0.0f32).to_bits(), nan_bits, 0.5f32.to_bits(), 0]);
}

#[test]
fn relu_mask_passes_gradient_of_active_units() {
    let act = bits(&[1.0, 0.0, -2.0, f32::NAN, -0.0, 3.0]);
    let mut g = bits(&[1.0, 2.0, 3.0, 4.0, 5.0]);
    relu_mask_grad(&mut g, &act);
    assert_eq!(floats(&g), vec![1.0, 0.0, 0.0, 4.0, 0.0]);
}

#[test]
fn relu_twice_is_relu_once() {
    let v = bits(&[-3.5, 0.0, -0.0, 1.5, f32::NAN, f32::NEG_INFINITY, f32::MIN]);
    let mut once = v.clone();
    relu_inplace(&mut once);
    let mut twice = once.clone();
    relu_inplace(&mut twice);
    assert_eq!(once, twice);
}

fn reference_taps(in_c: usize, k: usize, pad: usize, h: usize, w: usize, oc: usize, oy: usize, ox: usize) -> Vec<(usize, usize)> {
    let mut taps = Vec::new();
    for ic in 0..in_c {
        for ky in 0..k {
            let iy = oy + ky;
            if iy < pad || iy - pad >= h {
                continue;
            }
            for kx in 0..k {
                let ix = ox + kx;
                if ix < pad || ix - pad >= w {
                    continue;
                }
                let xi = (ic * h + iy - pad) * w + ix - pad;
                let wi = ((oc * in_c + ic) * k + ky) * k + kx;
                taps.push((xi, wi));
            }
        }
    }
    taps
}

#[test]
fn conv_taps_of_a_corner_cell() {
    let taps = conv_taps(1, 2, 3, 1, 3, 3, 1, 0, 0);
    assert_eq!(taps, vec![(0, 13), (1, 14), (3, 16), (4, 17)]);
    let centre = conv_taps(1, 2, 3, 1, 3, 3, 0, 1, 1);
    assert_eq!(centre.len(), 9);
    assert_eq!(centre[0], (0, 0));
    assert_eq!(centre[8], (8, 8));
}

#[test]
fn conv_taps_match_the_padded_loops() {
    for (in_c, out_c, k, h, w) in [(1usize, 8usize, 3usize, 28usize, 28usize), (8, 16, 3, 14, 14), (2, 3, 5, 4, 6), (3, 1, 1, 2, 2)] {
        let pad = k / 2;
        for oc in 0..out_c {
            for oy in 0..h {
                for ox in 0..w {
                    assert_eq!(
                        conv_taps(in_c, out_c, k, pad, h, w, oc, oy, ox),
                        reference_taps(in_c, k, pad, h, w, oc, oy, ox)
                    );
                }
            }
        }
    }
}
