use axon_core::compress::{
    choose_shorter, compress, compression_enabled, compression_level, decompress, decompress_into,
    decompressed_size,
};

#[test]
fn test_roundtrip_small() {
    let input = vec![42u8; 512];
    let compressed = compress(&input, true, 1);
    assert_eq!(compressed[0], 0); // uncompressed flag
    let decompressed = decompress(&compressed).unwrap();
    assert_eq!(decompressed, input);
}

#[test]
fn test_decompress_uncompressed() {
    let input = vec![10u8, 20, 30];
    let mut data = vec![0u8];
    data.extend_from_slice(&input);
    let result = decompress(&data).unwrap();
    assert_eq!(result, input);
}

#[test]
fn test_compression_disabled() {
    let input = vec![0u8; 8192];
    let compressed = compress(&input, compression_enabled(Some("0")), 1);
    assert_eq!(compressed[0], 0);
}

#[test]
fn a_large_message_shrinks_and_comes_back() {
    let input = vec![0u8; 100_000];
    let compressed = compress(&input, true, 1);
    assert_ne!(compressed[0], 0);
    assert!(compressed.len() < 1000);
    assert_eq!(decompressed_size(&compressed), Some(100_000));
    assert_eq!(decompress(&compressed), Some(input.clone()));
    let mut out = vec![1u8; 100_000];
    assert_eq!(decompress_into(&compressed, &mut out), Some(100_000));
    assert_eq!(out, input);
}

#[test]
fn noise_is_sent_as_it_is() {
    let mut x = 1u32;
    let input: Vec<u8> = (0..8192)
        .map(|_| {
            x ^= x << 13;
            x ^= x >> 17;
            x ^= x << 5;
            x as u8
        })
        .collect();
    let compressed = compress(&input, true, 1);
    assert_eq!(compressed[0], 0);
    assert_eq!(&compressed[1..], &input[..]);
}

#[test]
fn the_shorter_form_is_chosen() {
    let data = vec![5u8; 1025];
    let mut plain = vec![0u8];
    plain.extend_from_slice(&data);
    assert_eq!(choose_shorter(&data, None), plain);
    assert_eq!(choose_shorter(&data, Some(vec![9; 1021])), plain);
    let short = choose_shorter(&data, Some(vec![9; 1020]));
    assert_eq!(short[0], 1);
    assert_eq!(&short[1..5], &1025u32.to_be_bytes());
    assert_eq!(&short[5..], &vec![9; 1020]);
}

#[test]
fn damaged_frames_are_refused() {
    assert_eq!(decompress(&[]), None);
    assert_eq!(decompressed_size(&[]), None);
    assert_eq!(decompress(&[1, 0, 0]), None);
    let mut frame = compress(&vec![0u8; 100_000], true, 1);
    let n = frame.len();
    frame.truncate(n - 3);
    assert_eq!(decompress(&frame), None);
}

#[test]
fn a_buffer_takes_what_fits() {
    let mut out = vec![7u8; 3];
    assert_eq!(decompress_into(&[0, 1, 2, 3, 4], &mut out), Some(3));
    assert_eq!(out, vec![1, 2, 3]);
    assert_eq!(decompress_into(&[0, 9], &mut out), Some(1));
    assert_eq!(out, vec![9, 2, 3]);
    assert_eq!(decompress_into(&[], &mut out), None);
    assert_eq!(decompress_into(&[0, 9], &mut Vec::new()), None);
    let packed = compress(&vec![0u8; 100_000], true, 1);
    assert_eq!(decompress_into(&packed, &mut out), None);
    assert_eq!(out, vec![9, 2, 3]);
    let mut lying = packed.clone();
    lying[1..5].copy_from_slice(&10u32.to_be_bytes());
    let mut large = vec![7u8; 200_000];
    assert_eq!(decompress_into(&lying, &mut large), None);
    assert_eq!(&large[10..], &vec![7u8; 199_990]);
}

#[test]
fn settings_are_read() {
    assert!(compression_enabled(None));
    assert!(compression_enabled(Some("1")));
    assert!(!compression_enabled(Some("0")));
    assert_eq!(compression_level(None), 1);
    assert_eq!(compression_level(Some("7")), 7);
    assert_eq!(compression_level(Some("x")), 1);
}
