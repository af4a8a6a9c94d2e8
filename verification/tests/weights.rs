use cnn_core::weights::{decode, encode};

#[test]
fn encode_writes_magic_then_little_endian_words() {
    let blobs = vec![vec![1.0f32.to_bits(), 0x0102_0304], vec![], vec![0xdead_beef]];
    let bytes = encode(&blobs);
    assert_eq!(&bytes[..4], b"CNN1");
    assert_eq!(bytes.len(), 4 + 4 * 3);
    assert_eq!(&bytes[4..8], &1.0f32.to_le_bytes());
    assert_eq!(&bytes[8..12], &[4, 3, 2, 1]);
    assert_eq!(&bytes[12..16], &[0xef, 0xbe, 0xad, 0xde]);
}

#[test]
fn decode_inverts_encode() {
    let blobs: Vec<Vec<u32>> = vec![
        (0..72u32).map(|i| (i as f32 * 0.25 - 3.0).to_bits()).collect(),
        vec![0; 8],
        vec![f32::NAN.to_bits(), (-0.0f32).to_bits(), f32::MIN.to_bits()],
        vec![],
        vec![u32::MAX],
    ];
    let sizes: Vec<usize> = blobs.iter().map(|b| b.len()).collect();
    let bytes = encode(&blobs);
    assert_eq!(decode(&bytes, &sizes), Some(blobs));
}

#[test]
fn decode_refuses_wrong_files() {
    let blobs = vec![vec![7u32, 8], vec![9u32]];
    let mut bytes = encode(&blobs);
    assert_eq!(decode(&bytes, &[2, 1]), Some(blobs.clone()));
    assert_eq!(decode(&bytes, &[2, 2]), None);
    assert_eq!(decode(&bytes, &[1, 1]), None);
    assert_eq!(decode(&bytes[..bytes.len() - 1], &[2, 1]), None);
    assert_eq!(decode(b"CNN", &[]), None);
    assert_eq!(decode(b"", &[]), None);
    assert_eq!(decode(b"CNN1", &[]), Some(vec![]));
    assert_eq!(decode(b"CNN1", &[0, 0]), Some(vec![vec![], vec![]]));
    assert_eq!(decode(b"CNN1", &[usize::MAX, 2]), None);
    assert_eq!(decode(b"CNN1", &[usize::MAX / 2]), None);
    bytes[3] = b'2';
    assert_eq!(decode(&bytes, &[2, 1]), None);
}

#[test]
fn save_format_reads_back_exactly() {
    // the blob sizes of the network: conv1, conv2, fc1, fc2 weights and biases
    let sizes = [72usize, 8, 1152, 16, 784 * 64, 64, 640, 10];
    let mut k: u32 = 1;
    let blobs: Vec<Vec<u32>> = sizes
        .iter()
        .map(|&n| {
            (0..n)
                .map(|_| {
                    k = k.wrapping_mul(1_103_515_245).wrapping_add(12345);
                    k
                })
                .collect()
        })
        .collect();
    let bytes = encode(&blobs);
    assert_eq!(bytes.len(), 4 + 4 * sizes.iter().sum::<usize>());
    assert_eq!(decode(&bytes, &sizes), Some(blobs));
}
