use http_server::compression_utils::gz_encoding;
use std::io::Read;

fn gunzip(bytes: &[u8]) -> Vec<u8> {
    let mut out = Vec::new();
    flate2::read::GzDecoder::new(bytes).read_to_end(&mut out).unwrap();
    out
}

#[test]
fn output_is_a_gzip_stream_of_the_input() {
    for input in [&b""[..], b"abc", b"hello hello hello hello", &[0u8, 255, 1, 254]] {
        let out = gz_encoding(&input.to_vec());
        assert_eq!(&out[..3], &[0x1f, 0x8b, 8]);
        assert_ne!(out, input.to_vec());
        assert_eq!(gunzip(&out), input.to_vec());
    }
}

#[test]
fn compressing_twice_gives_the_same_bytes() {
    for input in [&b""[..], b"abc", b"the quick brown fox jumps over the lazy dog"] {
        assert_eq!(gz_encoding(&input.to_vec()), gz_encoding(&input.to_vec()));
    }
    let long: Vec<u8> = (0..100_000u32).map(|i| (i % 251) as u8).collect();
    assert_eq!(gz_encoding(&long), gz_encoding(&long));
    assert_eq!(gunzip(&gz_encoding(&long)), long);
}

#[test]
fn header_carries_no_time_stamp() {
    let out = gz_encoding(&b"abc".to_vec());
    assert_eq!(&out[4..8], &[0, 0, 0, 0]);
}
