use cnn_core::mnist::{be32, ink_bounding_box, paste_on_canvas, parse_idx, read_gz, MnistError};
use std::io::Write;

fn gzip(data: &[u8]) -> Vec<u8> {
    let mut enc = flate2::write::GzEncoder::new(Vec::new(), flate2::Compression::default());
    enc.write_all(data).unwrap();
    enc.finish().unwrap()
}

fn image_file(n: u32, rows: u32, cols: u32, pixels: &[u8]) -> Vec<u8> {
    let mut b = Vec::new();
    b.extend_from_slice(&2051u32.to_be_bytes());
    b.extend_from_slice(&n.to_be_bytes());
    b.extend_from_slice(&rows.to_be_bytes());
    b.extend_from_slice(&cols.to_be_bytes());
    b.extend_from_slice(pixels);
    b
}

fn label_file(labels: &[u8]) -> Vec<u8> {
    let mut b = Vec::new();
    b.extend_from_slice(&2049u32.to_be_bytes());
    b.extend_from_slice(&(labels.len() as u32).to_be_bytes());
    b.extend_from_slice(labels);
    b
}

#[test]
fn be32_reads_big_endian() {
    assert_eq!(be32(&[0, 0, 1, 2], 0), 258);
    assert_eq!(be32(&[9, 0x00, 0x00, 0x08, 0x03], 1), 2051);
    assert_eq!(be32(&[0xff, 0xff, 0xff, 0xff], 0), 0xffff_ffff);
}

#[test]
fn read_gz_decompresses() {
    let data: Vec<u8> = (0..1000u32).map(|i| (i * 7 % 251) as u8).collect();
    let packed = gzip(&data);
    assert_ne!(packed, data);
    assert_eq!(read_gz(&packed).unwrap(), data);
}

#[test]
fn read_gz_refuses_garbage() {
    match read_gz(b"this is not gzip data at all") {
        Err(MnistError::Gzip(_)) => {}
        Ok(_) => panic!("garbage decompressed"),
    }
}

#[test]
fn parse_idx_splits_images_and_labels() {
    let pixels: Vec<u8> = (0..12u8).collect();
    let images = image_file(3, 2, 2, &pixels);
    let labels = label_file(&[7, 1, 4]);
    let set = parse_idx(&images, &labels).unwrap();
    assert_eq!((set.rows, set.cols), (2, 2));
    assert_eq!(set.samples.len(), 3);
    assert_eq!(set.samples[0], (vec![0, 1, 2, 3], 7));
    assert_eq!(set.samples[1], (vec![4, 5, 6, 7], 1));
    assert_eq!(set.samples[2], (vec![8, 9, 10, 11], 4));
}

#[test]
fn parse_idx_through_gzip() {
    let pixels: Vec<u8> = (0..(2 * 28 * 28)).map(|i| (i % 256) as u8).collect();
    let images = read_gz(&gzip(&image_file(2, 28, 28, &pixels))).unwrap();
    let labels = read_gz(&gzip(&label_file(&[5, 0]))).unwrap();
    let set = parse_idx(&images, &labels).unwrap();
    assert_eq!(set.samples.len(), 2);
    assert_eq!(set.samples[1].0, pixels[784..].to_vec());
    assert_eq!(set.samples[1].1, 0);
}

#[test]
fn parse_idx_refuses_malformed_files() {
    let pixels: Vec<u8> = (0..12u8).collect();
    let labels = label_file(&[7, 1, 4]);
    assert!(parse_idx(&image_file(3, 2, 2, &pixels)[..15], &labels).is_none());
    assert!(parse_idx(&image_file(3, 2, 2, &pixels[..11]), &labels).is_none());
    assert!(parse_idx(&image_file(4, 2, 2, &pixels), &labels).is_none());
    assert!(parse_idx(&image_file(3, 2, 2, &pixels), &label_file(&[7, 1])).is_none());
    assert!(parse_idx(&image_file(3, 2, 2, &pixels), &labels[..10]).is_none());
    let empty = parse_idx(&image_file(0, 28, 28, &[]), &[]).unwrap();
    assert!(empty.samples.is_empty());
}

fn bits(v: &[f32]) -> Vec<u32> {
    v.iter().map(|x| x.to_bits()).collect()
}

#[test]
fn bounding_box_of_ink() {
    // 4 wide, 3 high
    let img = bits(&[
        0.0, 0.5, 0.0, 0.0, //
        0.0, 0.0, 0.1, 0.0, //
        0.0, 0.0, 0.9, 0.0,
    ]);
    let thr = 0.1f32.to_bits();
    assert_eq!(ink_bounding_box(&img, 4, 3, thr), Some((1, 0, 2, 2)));
    assert_eq!(ink_bounding_box(&img, 4, 1, thr), Some((1, 0, 1, 0)));
    assert_eq!(ink_bounding_box(&bits(&[0.1; 12]), 4, 3, thr), None);
    assert_eq!(ink_bounding_box(&[], 0, 0, thr), None);
    assert_eq!(ink_bounding_box(&bits(&[f32::NAN; 4]), 2, 2, thr), None);
}

#[test]
fn paste_places_and_clips() {
    let temp = bits(&[1.0, 2.0, 3.0, 4.0, 5.0, 6.0]); // 3 wide, 2 high
    let out = paste_on_canvas(&temp, 3, 2, 10, 20);
    assert_eq!((out.c, out.h, out.w), (1, 28, 28));
    assert_eq!(f32::from_bits(out.data[20 * 28 + 10]), 1.0);
    assert_eq!(f32::from_bits(out.data[20 * 28 + 12]), 3.0);
    assert_eq!(f32::from_bits(out.data[21 * 28 + 11]), 5.0);
    assert_eq!(out.data.iter().filter(|&&b| b != 0).count(), 6);

    let clipped = paste_on_canvas(&temp, 3, 2, -2, 27);
    assert_eq!(f32::from_bits(clipped.data[27 * 28]), 3.0);
    assert_eq!(clipped.data.iter().filter(|&&b| b != 0).count(), 1);

    let empty = paste_on_canvas(&[], 0, 0, 5, 5);
    assert!(empty.data.iter().all(|&b| b == 0));
}
