use dat3::error::ArchiveError;
use dat3::lzss::{compress, decompress};

#[test]
fn test_decompress() {
    let stream = [0x00, 0x05, 0x03, b'A', b'B', 0xEE, 0xF0, 0x00, 0x00];
    assert_eq!(decompress(&stream), Ok(b"ABABA".to_vec()));
}

#[test]
fn empty_stream_unpacks_to_nothing() {
    assert_eq!(decompress(&[]), Ok(Vec::new()));
}

#[test]
fn plain_block_is_copied() {
    let stream = [0xFF, 0xFC, 1, 2, 3, 4, 0x00, 0x00];
    assert_eq!(decompress(&stream), Ok(vec![1, 2, 3, 4]));
}

#[test]
fn plain_block_without_terminator() {
    let stream = [0xFF, 0xFE, 9, 8];
    assert_eq!(decompress(&stream), Ok(vec![9, 8]));
}

#[test]
fn trailing_single_byte_ends_the_stream() {
    let stream = [0xFF, 0xFF, 7, 0x00];
    assert_eq!(decompress(&stream), Ok(vec![7]));
}

#[test]
fn zero_length_block_ends_the_stream() {
    let stream = [0x00, 0x00, 0xFF, 0xFF, 5];
    assert_eq!(decompress(&stream), Ok(Vec::new()));
}

#[test]
fn back_reference_reads_the_initial_window() {
    // Flags 0: a back-reference to position 0, four bytes long.
    let stream = [0x00, 0x03, 0x00, 0x00, 0x01];
    assert_eq!(decompress(&stream), Ok(vec![0x20; 4]));
}

#[test]
fn back_reference_of_greatest_length() {
    let stream = [0x00, 0x03, 0x00, 0x00, 0x0F];
    assert_eq!(decompress(&stream), Ok(vec![0x20; 18]));
}

#[test]
fn back_reference_sees_bytes_it_wrote() {
    // 'A' goes to 4078; a reference to 4078 of length 5 repeats it.
    let stream = [0x00, 0x04, 0x01, b'A', 0xEE, 0xF2];
    assert_eq!(decompress(&stream), Ok(b"AAAAAA".to_vec()));
}

#[test]
fn window_starts_afresh_with_every_block() {
    // Block one writes 'Z' to 4078. Block two reads 4078 and finds a space.
    let stream = [
        0x00, 0x02, 0x01, b'Z', // literal Z
        0x00, 0x03, 0x00, 0xEE, 0xF0, // reference to 4078, three bytes
    ];
    assert_eq!(decompress(&stream), Ok(vec![b'Z', 0x20, 0x20, 0x20]));
}

#[test]
fn same_block_twice_gives_the_same_output_twice() {
    let block = [0x00, 0x05, 0x03, b'A', b'B', 0xEE, 0xF0];
    let mut stream = Vec::new();
    stream.extend_from_slice(&block);
    stream.extend_from_slice(&block);
    stream.extend_from_slice(&[0, 0]);
    assert_eq!(decompress(&stream), Ok(b"ABABAABABA".to_vec()));
}

#[test]
fn zero_length_block_between_two_blocks_hides_the_second() {
    let block = [0x00, 0x05, 0x03, b'A', b'B', 0xEE, 0xF0];
    let mut stream = Vec::new();
    stream.extend_from_slice(&block);
    stream.extend_from_slice(&[0, 0]);
    stream.extend_from_slice(&block);
    assert_eq!(decompress(&stream), Ok(b"ABABA".to_vec()));
}

#[test]
fn nine_units_take_two_flag_bytes() {
    // Eight literals under the first flag byte, one under the second.
    let stream = [
        0x00, 0x0B, 0xFF, b'a', b'b', b'c', b'd', b'e', b'f', b'g', b'h', 0x01, b'i',
    ];
    assert_eq!(decompress(&stream), Ok(b"abcdefghi".to_vec()));
}

#[test]
fn flag_byte_at_the_end_of_a_block_is_dropped() {
    // The block ends with its flag byte; the literal it announces is not
    // read from behind the block.
    let stream = [0x00, 0x01, 0x01, 0x00, 0x00];
    assert_eq!(decompress(&stream), Ok(Vec::new()));
}

#[test]
fn half_a_back_reference_is_dropped() {
    let stream = [0x00, 0x04, 0x01, b'Q', 0xEE, 0x00, 0x00];
    // flags 1: literal Q, then a reference with both bytes: EE 00.
    assert_eq!(decompress(&stream), Ok(vec![b'Q', 0x20, 0x20, 0x20]));
    let cut = [0x00, 0x03, 0x01, b'Q', 0xEE, 0x00, 0x00];
    assert_eq!(decompress(&cut), Ok(vec![b'Q']));
}

#[test]
fn short_plain_block_is_an_error() {
    let stream = [0xFF, 0xFC, 1, 2, 3];
    assert_eq!(decompress(&stream), Err(ArchiveError::Compression));
}

#[test]
fn short_packed_block_is_an_error() {
    let stream = [0x00, 0x05, 0x03, b'A'];
    assert_eq!(decompress(&stream), Err(ArchiveError::Compression));
}

#[test]
fn longest_plain_block() {
    let mut stream = vec![0x80, 0x00];
    stream.extend(std::iter::repeat(0x55).take(32768));
    assert_eq!(decompress(&stream), Ok(vec![0x55; 32768]));
}

#[test]
fn packing_is_not_offered() {
    assert_eq!(compress(b"abc"), Err(ArchiveError::Unsupported));
}
