use minilzo::{compress, decompress, Error};

const LOREM: &str = "Lorem ipsum dolor sit amet, consetetur sadipscing elitr, sed diam nonumy eirmod \
                     tempor invidunt ut labore et dolore magna aliquyam erat, sed diam voluptua. At \
                     vero eos et accusam et justo duo dolores et ea rebum. Stet clita kasd gubergren, \
                     no sea takimata sanctus est Lorem ipsum dolor sit amet. Lorem ipsum dolor sit \
                     amet, consetetur sadipscing elitr, sed diam nonumy eirmod tempor invidunt ut \
                     labore et dolore magna aliquyam erat, sed diam voluptua.";

fn pseudo_random(n: usize, seed: u64) -> Vec<u8> {
    let mut x = seed;
    let mut v = Vec::with_capacity(n);
    for _ in 0..n {
        x = x.wrapping_mul(6364136223846793005).wrapping_add(1442695040888963407);
        v.push((x >> 33) as u8);
    }
    v
}

fn round_trip(data: &[u8]) {
    let compressed = compress(data).unwrap();
    let decompressed = decompress(&compressed, data.len()).unwrap();
    assert_eq!(decompressed.len(), data.len());
    assert_eq!(decompressed, data);
}

#[test]
fn test_compress_short() {
    let data = "foo".as_bytes();
    let compressed = compress(data).unwrap();
    assert_eq!(compressed.len(), 7);

    let decompressed = decompress(&compressed, 3).unwrap();
    assert_eq!(decompressed.len(), 3);
    assert_eq!(decompressed, data);
}

#[test]
fn test_compress_fails_with_short_output() {
    let data = [0; 128 * 1024];
    let compressed = compress(&data[..]).unwrap();

    assert_eq!(Err(Error::OutputOverrun), decompress(&compressed, 128));
}

#[test]
fn simple_compress_decompress() {
    let data = [0; 128 * 1024];
    let compressed = compress(&data[..]).unwrap();

    assert_eq!(593, compressed.len());

    let decompressed = decompress(&compressed, 128 * 1024).unwrap();
    assert_eq!(128 * 1024, decompressed.len());
}

#[test]
fn test_compress_decompress_lorem_round() {
    let compressed = compress(LOREM.as_bytes()).unwrap();
    let decompressed = decompress(&compressed, LOREM.len()).unwrap();

    assert_eq!(LOREM.len(), decompressed.len());
    assert_eq!(LOREM.as_bytes(), &decompressed[..]);
}

#[test]
fn test_alice_wonderland_both() {
    let alice = "\r\n\r\n\r\n\r\n                ALICE'S ADVENTURES IN WONDERLAND\r\n";

    let compressed = compress(alice.as_bytes()).unwrap();
    let decompressed = decompress(&compressed, alice.len()).unwrap();

    assert_eq!(alice.len(), decompressed.len());
    assert_eq!(alice.as_bytes(), &decompressed[..]);
}

#[test]
fn foo_stream_is_exact() {
    let compressed = compress(b"foo").unwrap();
    assert_eq!(compressed, vec![20, b'f', b'o', b'o', 17, 0, 0]);
}

#[test]
fn empty_input_gives_only_the_end_marker() {
    let compressed = compress(&[]).unwrap();
    assert_eq!(compressed, vec![17, 0, 0]);
    assert_eq!(decompress(&compressed, 0), Ok(vec![]));
}

#[test]
fn single_byte_round_trips() {
    round_trip(&[0x5a]);
    round_trip(&[0]);
    round_trip(&[255]);
}

#[test]
fn lorem_stream_matches_known_encoding() {
    let expected: Vec<u8> = vec![
        0, 91, 76, 111, 114, 101, 109, 32, 105, 112, 115, 117, 109, 32, 100, 111, 108, 111, 114, 32,
        115, 105, 116, 32, 97, 109, 101, 116, 44, 32, 99, 111, 110, 115, 101, 116, 101, 116, 117,
        114, 32, 115, 97, 100, 105, 112, 115, 99, 105, 110, 103, 32, 101, 108, 105, 116, 114, 44,
        32, 115, 101, 100, 32, 100, 105, 97, 109, 32, 110, 111, 110, 117, 109, 121, 32, 101, 105,
        114, 109, 111, 100, 32, 116, 101, 109, 112, 111, 114, 32, 105, 110, 118, 105, 100, 117, 110,
        116, 32, 117, 116, 32, 108, 97, 98, 111, 114, 101, 32, 101, 116, 32, 128, 12, 0, 4, 101, 32,
        109, 97, 103, 110, 97, 32, 97, 108, 105, 113, 117, 121, 97, 109, 32, 101, 114, 97, 116, 44,
        40, 60, 1, 0, 3, 118, 111, 108, 117, 112, 116, 117, 97, 46, 32, 65, 116, 32, 118, 101, 114,
        111, 32, 101, 111, 115, 116, 7, 2, 97, 99, 99, 117, 115, 124, 5, 8, 116, 32, 106, 117, 115,
        116, 111, 32, 100, 117, 111, 173, 22, 101, 156, 3, 0, 52, 101, 97, 32, 114, 101, 98, 117,
        109, 46, 32, 83, 116, 101, 116, 32, 99, 108, 105, 116, 97, 32, 107, 97, 115, 100, 32, 103,
        117, 98, 101, 114, 103, 114, 101, 110, 44, 32, 110, 111, 32, 115, 101, 97, 32, 116, 97, 107,
        105, 109, 97, 116, 97, 32, 115, 97, 110, 99, 116, 117, 115, 32, 101, 115, 116, 32, 76, 111,
        114, 101, 109, 51, 45, 4, 46, 57, 108, 0, 32, 83, 156, 4, 10, 105, 97, 109, 32, 118, 111,
        108, 117, 112, 116, 117, 97, 46, 17, 0, 0,
    ];
    assert_eq!(compress(LOREM.as_bytes()).unwrap(), expected);
    assert_eq!(decompress(&expected, LOREM.len()).unwrap(), LOREM.as_bytes());
}

#[test]
fn random_data_round_trips() {
    for (n, seed) in [(1usize, 1u64), (21, 2), (100, 3), (5000, 4), (70000, 5), (200000, 6)] {
        round_trip(&pseudo_random(n, seed));
    }
}

#[test]
fn repetitive_data_round_trips() {
    let mut data = Vec::new();
    for i in 0..300000usize {
        data.push(b"abcabcabd"[i % 9]);
    }
    round_trip(&data);
    let mut runs = Vec::new();
    for i in 0..100000usize {
        runs.push(((i / 777) % 3) as u8);
    }
    round_trip(&runs);
}

#[test]
fn mixed_data_round_trips() {
    let mut data = pseudo_random(30000, 9);
    data.extend(vec![7u8; 40000]);
    data.extend(pseudo_random(30000, 9));
    data.extend(LOREM.as_bytes());
    data.extend(pseudo_random(60000, 10));
    data.extend(pseudo_random(30000, 9));
    round_trip(&data);
}

#[test]
fn zero_run_compresses_well_and_round_trips() {
    let data = vec![0u8; 128 * 1024];
    let compressed = compress(&data).unwrap();
    assert!(compressed.len() < 1024);
    assert_eq!(decompress(&compressed, data.len()).unwrap(), data);
}

#[test]
fn all_lengths_up_to_forty_round_trip() {
    let base = pseudo_random(40, 11);
    for n in 0..=40 {
        round_trip(&base[..n]);
        round_trip(&vec![b'x'; n]);
    }
}

#[test]
fn compress_is_deterministic() {
    let a = pseudo_random(50000, 12);
    let b = vec![3u8; 9000];
    let first = (compress(&a).unwrap(), compress(&b).unwrap());
    let second = (compress(&b).unwrap(), compress(&a).unwrap());
    assert_eq!(first.0, second.1);
    assert_eq!(first.1, second.0);
}

#[test]
fn smaller_expected_length_is_output_overrun() {
    let data = LOREM.as_bytes();
    let compressed = compress(data).unwrap();
    assert_eq!(decompress(&compressed, data.len() - 1), Err(Error::OutputOverrun));
    assert_eq!(decompress(&compressed, 10), Err(Error::OutputOverrun));
}

#[test]
fn larger_expected_length_is_output_not_consumed() {
    let data = LOREM.as_bytes();
    let compressed = compress(data).unwrap();
    assert_eq!(decompress(&compressed, data.len() + 1), Err(Error::OutputNotConsumed));
}

#[test]
fn empty_stream_has_no_end_marker() {
    assert_eq!(decompress(&[], 0), Err(Error::EOFNotFound));
    assert_eq!(decompress(&[], 10), Err(Error::EOFNotFound));
}

#[test]
fn stream_without_marker_is_eof_not_found() {
    // "foo" as a literal run, with the end marker cut off.
    assert_eq!(decompress(&[20, b'f', b'o', b'o'], 3), Err(Error::EOFNotFound));
}

#[test]
fn truncated_streams_are_rejected() {
    let data = LOREM.as_bytes();
    let compressed = compress(data).unwrap();
    for cut in 0..compressed.len() {
        let r = decompress(&compressed[..cut], data.len());
        assert!(matches!(
            r,
            Err(Error::InputOverrun) | Err(Error::EOFNotFound) | Err(Error::OutputOverrun)
        ));
    }
}

#[test]
fn truncated_literal_is_input_overrun() {
    assert_eq!(decompress(&[20, b'f', b'o'], 3), Err(Error::InputOverrun));
}

#[test]
fn trailing_bytes_are_input_not_consumed() {
    assert_eq!(
        decompress(&[20, b'f', b'o', b'o', 17, 0, 0, 9], 3),
        Err(Error::InputNotConsumed)
    );
}

#[test]
fn copy_before_start_is_lookbehind_overrun() {
    // One literal, then a near copy of four bytes from distance two.
    assert_eq!(decompress(&[18, b'a', 0x64, 0, 17, 0, 0], 5), Err(Error::LookbehindOverrun));
}

#[test]
fn distance_one_copy_expands_a_run() {
    // One literal 'a', then a near copy of four bytes from distance one.
    let stream = [18, b'a', 0x60, 0, 17, 0, 0];
    assert_eq!(decompress(&stream, 5).unwrap(), b"aaaaa".to_vec());
}

#[test]
fn corrupted_streams_never_panic() {
    let data = LOREM.as_bytes();
    let compressed = compress(data).unwrap();
    for i in 0..compressed.len() {
        for flip in [1u8, 0x10, 0x80, 0xff] {
            let mut bad = compressed.clone();
            bad[i] ^= flip;
            if let Ok(v) = decompress(&bad, data.len()) {
                assert_eq!(v.len(), data.len());
            }
        }
    }
}

#[test]
fn error_codes_map_to_errors() {
    assert_eq!(Error::from_code(-1), Error::Error);
    assert_eq!(Error::from_code(-2), Error::OutOfMemory);
    assert_eq!(Error::from_code(-3), Error::NotCompressible);
    assert_eq!(Error::from_code(-4), Error::InputOverrun);
    assert_eq!(Error::from_code(-5), Error::OutputOverrun);
    assert_eq!(Error::from_code(-6), Error::LookbehindOverrun);
    assert_eq!(Error::from_code(-7), Error::EOFNotFound);
    assert_eq!(Error::from_code(-8), Error::InputNotConsumed);
    assert_eq!(Error::from_code(-9), Error::NotYetImplemented);
    assert_eq!(Error::from_code(-10), Error::InvalidArgument);
    assert_eq!(Error::from_code(-11), Error::InvalidAlignment);
    assert_eq!(Error::from_code(-12), Error::OutputNotConsumed);
    assert_eq!(Error::from_code(-99), Error::InternalError);
    assert_eq!(Error::from_code(0), Error::Error);
    assert_eq!(Error::from_code(-13), Error::Error);
    assert_eq!(Error::from_code(7), Error::Error);
}

#[test]
fn error_codes_round_trip() {
    for code in [-1, -2, -3, -4, -5, -6, -7, -8, -9, -10, -11, -12, -99] {
        assert_eq!(Error::from_code(code).code(), code);
    }
}

#[test]
fn far_copies_round_trip() {
    // The second half repeats the first from 20000 bytes back: far copies.
    let half = pseudo_random(20000, 13);
    let mut data = half.clone();
    data.extend(&half);
    let compressed = compress(&data).unwrap();
    assert_eq!(compressed.len(), 20250);
    assert_eq!(decompress(&compressed, data.len()).unwrap(), data);
}

#[test]
fn mid_range_copies_round_trip() {
    // Repeats from 3000 bytes back: mid-range copies, some with long lengths.
    let chunk = pseudo_random(3000, 14);
    let mut data = Vec::new();
    for _ in 0..5 {
        data.extend(&chunk);
    }
    let compressed = compress(&data).unwrap();
    assert_eq!(compressed.len(), 6120);
    assert_eq!(decompress(&compressed, data.len()).unwrap(), data);
}

#[test]
fn long_literal_runs_round_trip() {
    // Incompressible runs longer than 18 + 255 need a length extension.
    for n in [19usize, 273, 274, 529, 1000, 49152, 49173] {
        round_trip(&pseudo_random(n, 15 + n as u64));
    }
}

#[test]
fn output_never_exceeds_worst_case_bound() {
    for n in [0usize, 1, 20, 21, 100, 4096, 49152, 100000] {
        let data = pseudo_random(n, 16);
        let compressed = compress(&data).unwrap();
        assert!(compressed.len() <= n + n / 16 + 64 + 3);
    }
}

#[test]
fn error_descriptions() {
    assert_eq!(Error::OutputOverrun.description(), "output overrun");
    assert_eq!(Error::EOFNotFound.description(), "EOF not found");
    assert_eq!(Error::Error.description(), "error");
}
