use vntools_common::lzss::{lzss_compress_bound, lzss_decode_into, lzss_decompress, LzssStop};

#[test]
fn literals_only() {
    let input = [0xFF, b'a', b'b', b'c', b'd', b'e', b'f', b'g', b'h'];
    let mut out = [0u8; 8];
    assert_eq!(lzss_decompress(&mut out, &input), Ok(()));
    assert_eq!(&out, b"abcdefgh");
}

#[test]
fn overlapping_back_reference() {
    // 'A' lands at window position 4078 (0xFEE); the reference copies 3 bytes from there.
    let input = [0x01, b'A', 0xEE, 0xF0];
    let mut out = [0u8; 4];
    assert_eq!(lzss_decompress(&mut out, &input), Ok(()));
    assert_eq!(&out, b"AAAA");
}

#[test]
fn window_starts_with_spaces() {
    let input = [0x00, 0x00, 0x02];
    let mut out = [0u8; 5];
    assert_eq!(lzss_decompress(&mut out, &input), Ok(()));
    assert_eq!(&out, b"     ");
}

#[test]
fn back_reference_cut_short() {
    let input = [0x00, 0x05];
    let mut out = [9u8; 3];
    assert_eq!(lzss_decompress(&mut out, &input), Err("Unexpected end of input"));
    assert_eq!(out, [9, 9, 9]);
}

#[test]
fn input_ends_before_output_is_full() {
    let input = [0xFF, b'a'];
    let mut out = [0x77u8; 2];
    assert_eq!(lzss_decompress(&mut out, &input), Err("Output buffer not fully filled"));
    assert_eq!(out, [b'a', 0x77]);
}

#[test]
fn stops_when_output_is_full() {
    let input = [0xFF, b'a', b'b', b'c', b'd'];
    let mut out = [0u8; 2];
    assert_eq!(lzss_decompress(&mut out, &input), Ok(()));
    assert_eq!(&out, b"ab");
}

#[test]
fn empty_output_needs_no_input() {
    let mut out: [u8; 0] = [];
    assert_eq!(lzss_decompress(&mut out, &[]), Ok(()));
}

#[test]
fn smaller_buffer_gets_a_prefix() {
    let input = [0x01, b'Q', 0xEE, 0xF2, 0xFF, b'x'];
    let mut big = [0u8; 7];
    let mut small = [0u8; 3];
    let (n_big, stop_big) = lzss_decode_into(&mut big, &input);
    let (n_small, stop_small) = lzss_decode_into(&mut small, &input);
    assert_eq!((n_big, stop_big), (7, LzssStop::Filled));
    assert_eq!((n_small, stop_small), (3, LzssStop::Filled));
    // the second reference (0xFF, 0x78) reads window position 0x7FF, still a space
    assert_eq!(&big, b"QQQQQQ ");
    assert_eq!(&small[..], &big[..3]);
}

#[test]
fn unfilled_buffers_agree() {
    let input = [0xFF, b'a', b'b'];
    let mut a = [0u8; 5];
    let mut b = [0u8; 9];
    let ra = lzss_decode_into(&mut a, &input);
    let rb = lzss_decode_into(&mut b, &input);
    assert_eq!(ra, (2, LzssStop::InputEnded));
    assert_eq!(ra, rb);
    assert_eq!(&a[..2], &b[..2]);
}

#[test]
fn compress_bound_formula() {
    assert_eq!(lzss_compress_bound(0), 18);
    assert_eq!(lzss_compress_bound(100), 130);
    assert_eq!(lzss_compress_bound(4096), 4096 + 512 + 18);
}

#[test]
fn trailing_input_is_ignored() {
    let mut a = [0u8; 4];
    let mut b = [0u8; 4];
    assert_eq!(lzss_decompress(&mut a, &[0x01, b'A', 0xEE, 0xF0]), Ok(()));
    assert_eq!(lzss_decompress(&mut b, &[0x01, b'A', 0xEE, 0xF0, 0x00, 0x12, 0x34]), Ok(()));
    assert_eq!(a, b);
}
