use lz77::lz77::{lz77_compress, lz77_compress_dummy, lz77_decompress, try_lz77_decompress, DecodeError};

fn pattern(n: usize) -> Vec<u8> {
    (0..n).map(|i| i as u8 % 0x10u8).collect()
}

#[test]
fn test_lz77_compress() {
    {
        let data = [0u8; 50];
        let comp = lz77_compress(&data);
        let dec = lz77_decompress(&comp);
        assert!(comp.len() < data.len());
        assert_eq!(data.to_vec(), dec);
    }
    {
        let mut data = [0u8; 0x80];
        for (i, byte) in data.iter_mut().enumerate() {
            *byte = i as u8 % 0x10u8;
        }
        let comp = lz77_compress(&data);
        let dec = lz77_decompress(&comp);
        assert!(comp.len() < data.len());
        assert_eq!(data.to_vec(), dec);
    }
    {
        let mut data = [0u8; 0x3000];
        for (i, byte) in data.iter_mut().enumerate() {
            *byte = i as u8 % 0x10u8;
        }
        let comp = lz77_compress(&data);
        let dec = lz77_decompress(&comp);
        assert!(comp.len() < data.len());
        assert_eq!(data.to_vec(), dec);
    }
}

#[test]
fn test_lz77_compress_dummy() {
    {
        let data = [0u8; 50];
        let comp = lz77_compress_dummy(&data);
        let dec = lz77_decompress(&comp);
        assert_eq!(data.to_vec(), dec);
    }
    {
        let data = [0u8; 80];
        let comp = lz77_compress_dummy(&data);
        let dec = lz77_decompress(&comp);
        assert_eq!(data.to_vec(), dec);
    }
    {
        let mut data = [0u8; 0x3000];
        for (i, byte) in data.iter_mut().enumerate() {
            *byte = i as u8 % 0x10u8;
        }
        let comp = lz77_compress_dummy(&data);
        let dec = lz77_decompress(&comp);
        assert_eq!(data.to_vec(), dec);
    }
}

#[test]
fn zeros_compress_below_input_size() {
    let data = vec![0u8; 50];
    let comp = lz77_compress(&data);
    assert!(comp.len() < 50);
    assert_eq!(lz77_decompress(&comp), data);
}

#[test]
fn short_pattern_compresses_and_round_trips() {
    let data = pattern(128);
    let comp = lz77_compress(&data);
    assert!(comp.len() < 128);
    assert_eq!(lz77_decompress(&comp), data);
}

#[test]
fn long_pattern_compresses_and_round_trips() {
    let data = pattern(12288);
    let comp = lz77_compress(&data);
    assert!(comp.len() < 12288);
    assert_eq!(lz77_decompress(&comp), data);
}

#[test]
fn mixed_short_input_round_trips() {
    let data: Vec<u8> = vec![
        185, 254, 185, 254, 185, 254, 185, 254, 33, 33, 33, 43, 42, 35, 38, 42, 40, 35, 38, 40, 42,
        35, 38, 40, 42, 35, 64,
    ];
    let comp = lz77_compress(&data);
    assert_eq!(lz77_decompress(&comp), data);
    let comp = lz77_compress_dummy(&data);
    assert_eq!(lz77_decompress(&comp), data);
}

#[test]
fn empty_input_round_trips() {
    let comp = lz77_compress(&[]);
    assert_eq!(comp, vec![0u8, 0, 0]);
    assert_eq!(lz77_decompress(&comp), Vec::<u8>::new());
    let comp = lz77_compress_dummy(&[]);
    assert_eq!(comp, vec![0u8; 8]);
    assert_eq!(lz77_decompress(&comp), Vec::<u8>::new());
}

#[test]
fn compress_picks_last_distance_below_early_exit() {
    // Every distance matches all five zeros; none reaches ten bytes, so the
    // largest distance (511) wins, and the rest of the group is padding.
    let comp = lz77_compress(&[0u8; 5]);
    assert_eq!(comp, vec![0x00, 0x1F, 0xF2, 0, 0, 0, 0, 0, 0, 0, 0, 0, 0]);
    assert_eq!(lz77_decompress(&comp), vec![0u8; 5]);
}

#[test]
fn compress_takes_first_distance_at_early_exit() {
    // A distance caps its own match length, so distance 10 is the first to
    // match ten zeros, and it is taken at once.
    let comp = lz77_compress(&[0u8; 10]);
    assert_eq!(comp, vec![0x00, 0x00, 0xA7, 0, 0, 0, 0, 0, 0, 0, 0, 0, 0]);
    assert_eq!(lz77_decompress(&comp), vec![0u8; 10]);
}

#[test]
fn compress_emits_literals_for_fresh_bytes() {
    let comp = lz77_compress(&[1, 2]);
    assert_eq!(comp, vec![0x03, 1, 2, 0, 0, 0, 0, 0, 0, 0, 0, 0]);
    assert_eq!(lz77_decompress(&comp), vec![1, 2]);
}

#[test]
fn dummy_frames_partial_group() {
    let comp = lz77_compress_dummy(&[1, 2, 3]);
    assert_eq!(comp, vec![0x07, 1, 2, 3, 0, 0, 0, 0]);
    assert_eq!(lz77_decompress(&comp), vec![1, 2, 3]);
}

#[test]
fn dummy_frames_full_groups() {
    let data: Vec<u8> = (1..=9).collect();
    let comp = lz77_compress_dummy(&data);
    assert_eq!(comp, vec![0xFF, 1, 2, 3, 4, 5, 6, 7, 8, 0x01, 9, 0, 0, 0, 0]);
    let data: Vec<u8> = (1..=8).collect();
    let comp = lz77_compress_dummy(&data);
    assert_eq!(comp, vec![0xFF, 1, 2, 3, 4, 5, 6, 7, 8, 0, 0, 0, 0, 0, 0, 0, 0]);
}

#[test]
fn decompress_overlapping_copy() {
    // 'A', then distance 1 length 5, then the terminator.
    let stream = [0x01, 0x41, 0x00, 0x12, 0x00, 0x00];
    assert_eq!(lz77_decompress(&stream), b"AAAAAA".to_vec());
    assert_eq!(try_lz77_decompress(&stream), Ok(b"AAAAAA".to_vec()));
}

#[test]
fn decompress_reads_zero_history() {
    // Distance 7 before any output reads the zeroed window.
    let stream = [0x00, 0x00, 0x70, 0x00, 0x00];
    assert_eq!(lz77_decompress(&stream), vec![0u8; 3]);
}

#[test]
fn decompress_ignores_bytes_after_terminator() {
    let stream = [0x01, 0x41, 0x00, 0x00, 0x99, 0x98];
    assert_eq!(lz77_decompress(&stream), vec![0x41]);
}

#[test]
fn decompress_reports_truncated_stream() {
    assert_eq!(try_lz77_decompress(&[0xFF, 1]), Err(DecodeError::MalformedStream));
    assert_eq!(lz77_decompress(&[0xFF, 1]), vec![1]);
    assert_eq!(try_lz77_decompress(&[0x00, 0x00]), Err(DecodeError::MalformedStream));
    assert_eq!(try_lz77_decompress(&[]), Err(DecodeError::MalformedStream));
}

#[test]
fn decompress_reports_zero_distance() {
    assert_eq!(try_lz77_decompress(&[0x01, 7, 0x00, 0x05, 0, 0]), Err(DecodeError::MalformedStream));
    assert_eq!(lz77_decompress(&[0x01, 7, 0x00, 0x05, 0, 0]), vec![7]);
}

#[test]
fn decoding_re_encoded_output_is_stable() {
    let data = pattern(300);
    let once = lz77_decompress(&lz77_compress(&data));
    let twice = lz77_decompress(&lz77_compress(&once));
    assert_eq!(twice, data);
}

fn compress_round_trips(data: Vec<u8>) -> bool {
    lz77_decompress(&lz77_compress(&data)) == data
}

fn compress_dummy_round_trips(data: Vec<u8>) -> bool {
    lz77_decompress(&lz77_compress_dummy(&data)) == data
}

#[test]
fn test_lz77_compress_prop() {
    quickcheck::QuickCheck::new()
        .gen(quickcheck::Gen::new(10000))
        .tests(20)
        .quickcheck(compress_round_trips as fn(Vec<u8>) -> bool);
}

#[test]
fn test_lz77_compress_dummy_prop() {
    quickcheck::QuickCheck::new()
        .gen(quickcheck::Gen::new(10000))
        .tests(100)
        .quickcheck(compress_dummy_round_trips as fn(Vec<u8>) -> bool);
}
