use static_config::layout::{
    push_le32, push_zeros, COUNT_OFFSET, RECORD_SIZE, TABLE_ADDR_OFFSET, TABLE_ALIGN, WORD,
};
use static_config::order::{key_before, sorted_entries};
use static_config::table::{encode_field_table, push_text};

fn pairs(items: &[(&str, &str)]) -> Vec<(String, String)> {
    items.iter().map(|(k, v)| (k.to_string(), v.to_string())).collect()
}

/// Reads the table back: every key and value, in the order written.
fn decode(bytes: &[u8], count: usize) -> Vec<(String, String)> {
    let mut at = 0usize;
    let mut texts = Vec::new();
    for _ in 0..count * 2 {
        assert_eq!(at % 4, 0, "a length prefix must begin on a word");
        let len = u32::from_le_bytes([bytes[at], bytes[at + 1], bytes[at + 2], bytes[at + 3]]) as usize;
        at += 4;
        texts.push(String::from_utf8(bytes[at..at + len].to_vec()).unwrap());
        at += len;
        while at % 4 != 0 {
            assert_eq!(bytes[at], 0);
            at += 1;
        }
    }
    assert!(bytes.len() - at == 0 || bytes.len() - at == 4);
    assert!(bytes[at..].iter().all(|b| *b == 0));
    let mut out = Vec::new();
    let mut it = texts.into_iter();
    while let (Some(k), Some(v)) = (it.next(), it.next()) {
        out.push((k, v));
    }
    out
}

#[test]
fn empty_overrides_give_an_empty_table() {
    let (bytes, count) = encode_field_table(&Vec::new());
    assert_eq!(bytes, Vec::<u8>::new());
    assert_eq!(count, 0);
}

#[test]
fn one_override_is_encoded_byte_for_byte() {
    let (bytes, count) = encode_field_table(&pairs(&[("greeting", "hello")]));
    let mut expected: Vec<u8> = Vec::new();
    expected.extend_from_slice(&[8, 0, 0, 0]);
    expected.extend_from_slice(b"greeting");
    expected.extend_from_slice(&[5, 0, 0, 0]);
    expected.extend_from_slice(b"hello");
    expected.extend_from_slice(&[0, 0, 0]);
    assert_eq!(bytes, expected);
    assert_eq!(bytes.len(), 24);
    assert_eq!(count, 1);
}

#[test]
fn an_odd_number_of_words_gets_one_more() {
    // 4 + 1 + 3 and 4 + 0: three words, so a fourth of zeros follows.
    let (bytes, count) = encode_field_table(&pairs(&[("a", "")]));
    assert_eq!(bytes, vec![1, 0, 0, 0, b'a', 0, 0, 0, 0, 0, 0, 0, 0, 0, 0, 0]);
    assert_eq!(count, 1);
}

#[test]
fn a_text_of_whole_words_gets_no_padding() {
    let mut buf = vec![7u8];
    push_text(&mut buf, &b"abcd".to_vec());
    assert_eq!(buf, vec![7, 4, 0, 0, 0, b'a', b'b', b'c', b'd']);
}

#[test]
fn texts_are_padded_to_words() {
    for (text, pad) in [("", 0usize), ("a", 3), ("ab", 2), ("abc", 1), ("abcd", 0), ("abcde", 3)] {
        let mut buf = Vec::new();
        push_text(&mut buf, &text.as_bytes().to_vec());
        assert_eq!(buf.len(), 4 + text.len() + pad);
        assert_eq!(&buf[..4], &(text.len() as u32).to_le_bytes());
        assert_eq!(&buf[4..4 + text.len()], text.as_bytes());
        assert!(buf[4 + text.len()..].iter().all(|b| *b == 0));
    }
}

#[test]
fn words_are_little_endian() {
    let mut buf = Vec::new();
    push_le32(&mut buf, 0x0403_0201);
    assert_eq!(buf, vec![1, 2, 3, 4]);
    push_le32(&mut buf, 65536);
    assert_eq!(buf, vec![1, 2, 3, 4, 0, 0, 1, 0]);
}

#[test]
fn words_keep_the_low_32_bits() {
    let mut buf = Vec::new();
    push_le32(&mut buf, 0x1_0000_0005u64 as usize);
    assert_eq!(buf, vec![5, 0, 0, 0]);
}

#[test]
fn zeros_are_appended() {
    let mut buf = vec![9u8];
    push_zeros(&mut buf, 3);
    assert_eq!(buf, vec![9, 0, 0, 0]);
    push_zeros(&mut buf, 0);
    assert_eq!(buf, vec![9, 0, 0, 0]);
}

#[test]
fn the_record_layout_is_three_words() {
    assert_eq!(WORD, 4);
    assert_eq!(COUNT_OFFSET, WORD);
    assert_eq!(TABLE_ADDR_OFFSET, COUNT_OFFSET + WORD);
    assert_eq!(RECORD_SIZE, TABLE_ADDR_OFFSET + WORD);
    assert_eq!(TABLE_ALIGN, 8);
}

#[test]
fn keys_compare_byte_by_byte() {
    let k = |s: &str| s.as_bytes().to_vec();
    assert!(key_before(&k("a"), &k("b")));
    assert!(!key_before(&k("b"), &k("a")));
    assert!(!key_before(&k("a"), &k("a")));
    assert!(key_before(&k(""), &k("a")));
    assert!(!key_before(&k(""), &k("")));
    assert!(key_before(&k("ab"), &k("abc")));
    assert!(!key_before(&k("abc"), &k("ab")));
    assert!(key_before(&k("Z"), &k("a")));
    assert!(key_before(&k("z"), &k("é")));
    assert!(key_before(&vec![0x7f], &vec![0x80]));
}

#[test]
fn entries_are_sorted_by_key() {
    let sorted = sorted_entries(&pairs(&[("name", "componentized"), ("greeting", "hello"), ("zeta", "z"), ("alpha", "a")]));
    let keys: Vec<&[u8]> = sorted.iter().map(|e| e.0.as_slice()).collect();
    assert_eq!(keys, vec![&b"alpha"[..], &b"greeting"[..], &b"name"[..], &b"zeta"[..]]);
    assert_eq!(sorted[1].1, b"hello".to_vec());
    assert_eq!(sorted[2].1, b"componentized".to_vec());
}

#[test]
fn equal_keys_keep_their_order() {
    let sorted = sorted_entries(&pairs(&[("k", "first"), ("a", "x"), ("k", "second"), ("k", "third")]));
    let values: Vec<&[u8]> = sorted.iter().map(|e| e.1.as_slice()).collect();
    assert_eq!(values, vec![&b"x"[..], &b"first"[..], &b"second"[..], &b"third"[..]]);
}

#[test]
fn the_table_does_not_depend_on_the_order_given() {
    let a = encode_field_table(&pairs(&[("greeting", "hello"), ("name", "componentized")]));
    let b = encode_field_table(&pairs(&[("name", "componentized"), ("greeting", "hello")]));
    assert_eq!(a, b);
}

#[test]
fn encoding_twice_gives_the_same_bytes() {
    let input = pairs(&[("b", "2"), ("a", "1"), ("c", "3")]);
    assert_eq!(encode_field_table(&input), encode_field_table(&input));
}

#[test]
fn every_table_is_a_multiple_of_eight_long() {
    let mut input = Vec::new();
    for n in 0..12usize {
        let (bytes, count) = encode_field_table(&input);
        assert_eq!(bytes.len() % 8, 0);
        assert_eq!(count as usize, n);
        assert_eq!(bytes.is_empty(), n == 0);
        let mut expected = input.clone();
        expected.sort_by(|a: &(String, String), b: &(String, String)| a.0.cmp(&b.0));
        assert_eq!(decode(&bytes, n), expected);
        input.push(("k".repeat(12 - n), "v".repeat(n)));
    }
}

#[test]
fn the_table_reads_back_sorted() {
    let input = pairs(&[("name", "componentized"), ("greeting", "hello")]);
    let (bytes, count) = encode_field_table(&input);
    assert_eq!(count, 2);
    assert_eq!(decode(&bytes, 2), pairs(&[("greeting", "hello"), ("name", "componentized")]));
}

#[test]
fn texts_beyond_ascii_are_written_as_utf8() {
    let (bytes, _) = encode_field_table(&pairs(&[("é", "ü")]));
    assert_eq!(bytes, vec![2, 0, 0, 0, 0xc3, 0xa9, 0, 0, 2, 0, 0, 0, 0xc3, 0xbc, 0, 0]);
}
