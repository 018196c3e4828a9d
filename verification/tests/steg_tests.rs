use steg::assemble::{assemble_message, join_messages, sort_parts};
use steg::bits::{bit_at, bit_set_at, lsb};
use steg::codec::{decode_character, encode_character};
use steg::decimal::decimal_digits;
use steg::error::StegError;
use steg::image::{Ppm, PpmHeader};
use steg::message::{decode_message, encode_message};
use steg::naming::{output_file_path, pad_zeros_for_file};
use steg::order::{chars_of, text_less};
use steg::ppm_file::{encode_file, ppm_file_bytes};
use steg::split::{message_fits, split_message, terminated_message};
use steg::threads::{decode_job_range, encode_job_range};

fn image(pixels: Vec<u8>) -> Ppm {
    Ppm {
        header: PpmHeader {
            magic_number: b"P6".to_vec(),
            width: 4,
            height: 2,
            max_color_value: 255,
        },
        pixels,
    }
}

#[test]
fn lsb_reads_lowest_bit() {
    assert!(lsb(1));
    assert!(lsb(255));
    assert!(!lsb(0));
    assert!(!lsb(254));
    assert!(lsb(0b1010_1011));
}

#[test]
fn bit_at_counts_from_most_significant_bit() {
    assert_eq!(bit_at(0b1000_0000, 0), 1);
    assert_eq!(bit_at(0b1000_0000, 7), 0);
    assert_eq!(bit_at(0b0000_0001, 7), 1);
    assert_eq!(bit_at(b'A', 1), 1);
    assert_eq!(bit_at(b'A', 2), 0);
    assert!(bit_set_at(b'A', 7));
    assert!(!bit_set_at(b'A', 6));
}

#[test]
fn encode_character_sets_low_bits() {
    // 'A' = 0b0100_0001
    let bytes = [10u8, 11, 12, 13, 14, 15, 16, 17];
    let enc = encode_character('A', &bytes);
    assert_eq!(enc, [10, 11, 12, 12, 14, 14, 16, 17]);
}

#[test]
fn encode_character_short_input_pads_with_zero() {
    let enc = encode_character('A', &[255, 255, 255]);
    assert_eq!(enc, [254, 255, 254, 0, 0, 0, 0, 0]);
}

#[test]
fn encode_character_truncates_code_point() {
    // U+0141 has low byte 0x41, the same as 'A'.
    let bytes = [0u8; 8];
    assert_eq!(encode_character('\u{141}', &bytes), encode_character('A', &bytes));
}

#[test]
fn decode_character_reads_low_bits() {
    assert_eq!(decode_character(&[0, 1, 0, 0, 0, 0, 0, 1]), b'A');
    assert_eq!(decode_character(&[255, 255, 255, 255, 255, 255, 255, 255]), 255);
    assert_eq!(decode_character(&[20, 20, 20, 20, 20, 20, 20, 20]), 0);
}

#[test]
fn character_roundtrip_keeps_high_bits() {
    let bytes = [200u8, 37, 99, 0, 255, 128, 7, 64];
    for c in ['a', 'Z', '\0', '~', ' '] {
        let enc = encode_character(c, &bytes);
        assert_eq!(decode_character(&enc), c as u8);
        for i in 0..8 {
            assert_eq!(enc[i] / 2, bytes[i] / 2);
        }
    }
}

#[test]
fn message_roundtrip() {
    let pixels: Vec<u8> = (0..64u32).map(|i| (i * 37 % 256) as u8).collect();
    let ppm = image(pixels.clone());
    let encoded = encode_message("hi!\0", &ppm).unwrap();
    assert_eq!(encoded.len(), pixels.len());
    assert_eq!(&encoded[32..], &pixels[32..]);
    let decoded = decode_message(&encoded).unwrap();
    assert_eq!(decoded, "hi!\0");
}

#[test]
fn decode_stops_at_short_final_chunk() {
    let ppm = image(vec![0u8; 20]);
    let encoded = encode_message("ab", &ppm).unwrap();
    // two characters, then four bytes that read as a terminating NUL
    assert_eq!(decode_message(&encoded).unwrap(), "ab\0");
}

#[test]
fn decode_without_terminator_reads_whole_image() {
    let ppm = image(vec![0u8; 16]);
    let encoded = encode_message("ab", &ppm).unwrap();
    assert_eq!(decode_message(&encoded).unwrap(), "ab");
}

#[test]
fn decode_empty_pixels_is_empty() {
    assert_eq!(decode_message(&Vec::new()).unwrap(), "");
}

#[test]
fn decode_rejects_non_ascii() {
    let pixels = vec![1u8; 8];
    match decode_message(&pixels) {
        Err(StegError::BadDecode(s)) => {
            assert_eq!(s, "Found non-ascii value in decoded character!")
        }
        _ => panic!("expected a decoding error"),
    }
}

#[test]
fn file_names_are_zero_padded() {
    assert_eq!(pad_zeros_for_file(0), "00000.ppm");
    assert_eq!(pad_zeros_for_file(7), "00007.ppm");
    assert_eq!(pad_zeros_for_file(42), "00042.ppm");
    assert_eq!(pad_zeros_for_file(12345), "12345.ppm");
    assert_eq!(pad_zeros_for_file(99999), "99999.ppm");
}

#[test]
fn file_names_sort_by_index() {
    let mut names: Vec<String> = [10usize, 2, 100, 9, 0].iter().map(|&i| pad_zeros_for_file(i)).collect();
    names.sort();
    assert_eq!(names, vec!["00000.ppm", "00002.ppm", "00009.ppm", "00010.ppm", "00100.ppm"]);
    assert!(text_less(&pad_zeros_for_file(9), &pad_zeros_for_file(10)));
    assert!(!text_less(&pad_zeros_for_file(10), &pad_zeros_for_file(9)));
}

#[test]
fn output_paths_join_directory_and_name() {
    assert_eq!(output_file_path("out", 3), "out/00003.ppm");
    assert_eq!(output_file_path("", 120), "/00120.ppm");
    assert!(text_less(&output_file_path("dir", 4), &output_file_path("dir", 40)));
}

#[test]
fn decimal_digits_are_ascii() {
    assert_eq!(decimal_digits(0), b"0".to_vec());
    assert_eq!(decimal_digits(9), b"9".to_vec());
    assert_eq!(decimal_digits(10), b"10".to_vec());
    assert_eq!(decimal_digits(4096), b"4096".to_vec());
    assert_eq!(decimal_digits(u64::MAX), u64::MAX.to_string().into_bytes());
}

#[test]
fn ppm_file_has_header_then_pixels() {
    let ppm = image(vec![1, 2, 3]);
    let bytes = ppm_file_bytes(&ppm.header, &ppm.pixels);
    assert_eq!(bytes, b"P6\n4 2\n255\n\x01\x02\x03".to_vec());
}

#[test]
fn encoded_file_holds_message() {
    let ppm = image(vec![0u8; 24]);
    let bytes = encode_file("A", &ppm).unwrap();
    let header = b"P6\n4 2\n255\n";
    assert_eq!(&bytes[..header.len()], header);
    assert_eq!(&bytes[header.len()..header.len() + 8], &[0, 1, 0, 0, 0, 0, 0, 1]);
    assert_eq!(bytes.len(), header.len() + 24);
}

#[test]
fn terminated_message_appends_nul() {
    assert_eq!(terminated_message("hey"), b"hey\0".to_vec());
    assert_eq!(terminated_message(""), vec![0u8]);
    assert_eq!(terminated_message("é"), vec![0xc3, 0xa9, 0]);
}

#[test]
fn message_fits_counts_eight_pixels_per_byte() {
    assert!(message_fits(3, &[16, 8]));
    assert!(!message_fits(4, &[16, 8]));
    assert!(message_fits(0, &[]));
    assert!(!message_fits(1, &[7]));
}

#[test]
fn split_message_cuts_parts() {
    let parts = split_message(b"abcdefg", 24);
    assert_eq!(parts, vec![b"abc".to_vec(), b"def".to_vec(), b"g".to_vec()]);
    let parts = split_message(b"abcdef", 24);
    assert_eq!(parts, vec![b"abc".to_vec(), b"def".to_vec()]);
    let parts = split_message(b"", 0);
    assert!(parts.is_empty());
    let parts = split_message(b"xy", 800);
    assert_eq!(parts, vec![b"xy".to_vec()]);
}

#[test]
fn decode_ranges_skip_last_file() {
    // 10 files over 3 threads: runs of 4
    assert_eq!(decode_job_range(10, 3, 0), (0, 4));
    assert_eq!(decode_job_range(10, 3, 1), (4, 8));
    assert_eq!(decode_job_range(10, 3, 2), (8, 9));
    // one file is never handed out
    assert_eq!(decode_job_range(1, 2, 0), (0, 0));
    assert_eq!(decode_job_range(1, 2, 1), (1, 1));
}

#[test]
fn decode_ranges_partition_all_but_last() {
    for n in 1..30usize {
        for t in 1..7usize {
            let mut seen = vec![0u32; n];
            for i in 0..t {
                let (s, e) = decode_job_range(n, t, i);
                for k in s..e {
                    seen[k] += 1;
                }
            }
            for k in 0..n - 1 {
                assert_eq!(seen[k], 1);
            }
            assert_eq!(seen[n - 1], 0);
        }
    }
}

#[test]
fn encode_ranges_follow_thread_formula() {
    assert_eq!(encode_job_range(5, 1, 0), (0, 5));
    assert_eq!(encode_job_range(100, 2, 0), (0, 25));
    assert_eq!(encode_job_range(100, 2, 1), (3, 41));
    assert_eq!(encode_job_range(1, 3, 2), (7, 1));
}

#[test]
fn encode_ranges_cover_prefix() {
    for n in 1..200usize {
        for t in 1..4usize {
            let mut covered = vec![false; n];
            for i in 0..t {
                let (s, e) = encode_job_range(n, t, i);
                for k in s..e {
                    covered[k] = true;
                }
            }
            let limit = std::cmp::min(8 * (t * t + 1), n - 1);
            for k in 0..n {
                assert_eq!(covered[k], k <= limit);
            }
        }
    }
}

#[test]
fn text_order_is_code_point_order() {
    assert!(text_less("a", "b"));
    assert!(text_less("ab", "abc"));
    assert!(!text_less("abc", "ab"));
    assert!(!text_less("same", "same"));
    assert!(text_less("", "x"));
    assert!(text_less("Z", "a"));
    assert_eq!(chars_of("héllo"), vec!['h', 'é', 'l', 'l', 'o']);
}

#[test]
fn parts_sort_like_tuples() {
    let parts = vec![
        ("b/00001.ppm".to_string(), "world\0".to_string()),
        ("b/00000.ppm".to_string(), "hello ".to_string()),
        ("a/00009.ppm".to_string(), "x".to_string()),
        ("b/00000.ppm".to_string(), "again ".to_string()),
    ];
    let mut expected = parts.clone();
    expected.sort();
    let sorted = sort_parts(parts.clone());
    assert_eq!(sorted, expected);
    assert_eq!(join_messages(&sorted), "xagain hello world\0");
    assert_eq!(assemble_message(parts), "xagain hello world\0");
    assert_eq!(assemble_message(Vec::new()), "");
}
