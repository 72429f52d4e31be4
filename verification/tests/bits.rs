use pco::bits::bits_to_encode_offset;
use pco::bits::bits_to_encode_offset_bits;
use pco::bits::ceil_div;
use pco::bits::words_to_bytes;

#[test]
fn test_bits_to_encode_offset_bits() {
    assert_eq!(bits_to_encode_offset_bits::<u32>(), 6);
    assert_eq!(bits_to_encode_offset_bits::<u64>(), 7);
}

#[test]
fn test_ceil_div() {
    assert_eq!(ceil_div(0, 7), 0);
    assert_eq!(ceil_div(0, 1), 0);
    assert_eq!(ceil_div(5, 1), 5);
    assert_eq!(ceil_div(9, 3), 3);
    assert_eq!(ceil_div(10, 3), 4);
    assert_eq!(ceil_div(11, 3), 4);
    assert_eq!(ceil_div(12, 3), 4);
    assert_eq!(ceil_div(1, 100), 1);
}

#[test]
fn test_bits_to_encode_offset() {
    assert_eq!(bits_to_encode_offset(0u64), 0);
    assert_eq!(bits_to_encode_offset(1u64), 1);
    assert_eq!(bits_to_encode_offset(255u64), 8);
    assert_eq!(bits_to_encode_offset(256u64), 9);
    assert_eq!(bits_to_encode_offset(u64::MAX), 64);
    assert_eq!(bits_to_encode_offset(0u32), 0);
    assert_eq!(bits_to_encode_offset(15u32), 4);
    assert_eq!(bits_to_encode_offset(16u32), 5);
    assert_eq!(bits_to_encode_offset(u32::MAX), 32);
}

#[test]
fn test_words_to_bytes_length_and_order() {
    let words: Vec<usize> = vec![1, 258, usize::MAX];
    let bytes = words_to_bytes(&words);
    let w = std::mem::size_of::<usize>();
    assert_eq!(bytes.len(), words.len() * w);
    // first word: 1, little-endian
    assert_eq!(bytes[0], 1);
    for j in 1..w {
        assert_eq!(bytes[j], 0);
    }
    // second word: 258 = 0x0102, little-endian
    assert_eq!(bytes[w], 2);
    assert_eq!(bytes[w + 1], 1);
    for j in 2..w {
        assert_eq!(bytes[w + j], 0);
    }
    // third word: all bytes set
    for j in 0..w {
        assert_eq!(bytes[2 * w + j], 0xff);
    }
}

#[test]
fn test_words_to_bytes_round_trip() {
    let words: Vec<usize> = vec![0, 1, 0xdead_beef, usize::MAX, usize::MAX - 1, 12345];
    let bytes = words_to_bytes(&words);
    let w = std::mem::size_of::<usize>();
    let mut rebuilt: Vec<usize> = Vec::new();
    for chunk in bytes.chunks(w) {
        let mut value: usize = 0;
        for (j, b) in chunk.iter().enumerate() {
            value |= (*b as usize) << (8 * j);
        }
        rebuilt.push(value);
    }
    assert_eq!(rebuilt, words);
}

#[test]
fn test_words_to_bytes_empty() {
    let words: Vec<usize> = vec![];
    let bytes = words_to_bytes(&words);
    assert_eq!(bytes.len(), 0);
}
