use probe_rp_usb::le::{push_bytes, push_fill, push_le, read_le, to_le, write_at};
use probe_rp_usb::pages::{ElfSegment, PageFragment, PageMap};
use probe_rp_usb::text::{
    chars_contain, from_chars, join_texts, lower_chars, parse_digits, push_decimal, push_hex,
    push_padded_decimal, push_upper_hex, to_chars, upper_chars, NumberError,
};

#[test]
fn words_survive_their_bytes() {
    for x in [0u32, 1, 0x0102_0304, 0x8000_0000, u32::MAX] {
        assert_eq!(to_le(x), x.to_le_bytes());
        assert_eq!(read_le(&to_le(x), 0), x);
    }
    let mut out = vec![7];
    push_le(&mut out, 0x0102_0304);
    assert_eq!(out, vec![7, 4, 3, 2, 1]);
    assert_eq!(read_le(&out, 1), 0x0102_0304);
}

#[test]
fn bytes_are_moved() {
    let mut out = Vec::new();
    push_bytes(&mut out, &[1, 2, 3, 4], 1, 3);
    push_fill(&mut out, 9, 2);
    assert_eq!(out, vec![2, 3, 9, 9]);
    write_at(&mut out, 1, &[5, 6, 7], 1, 3);
    assert_eq!(out, vec![2, 6, 7, 9]);
}

#[test]
fn numbers_survive_their_digits() {
    for x in [0u64, 7, 10, 65535, u64::MAX] {
        let mut text = String::new();
        push_decimal(&mut text, x);
        assert_eq!(text, x.to_string());
        let chars = to_chars(&text);
        assert_eq!(parse_digits(&chars, 0, chars.len(), 10, u64::MAX), Ok(x));
        let mut text = String::new();
        push_hex(&mut text, x, 4);
        assert_eq!(text, format!("{x:04x}"));
        let mut text = String::new();
        push_upper_hex(&mut text, x, 6);
        assert_eq!(text, format!("{x:06X}"));
        let mut text = String::new();
        push_padded_decimal(&mut text, x, 3);
        assert_eq!(text, format!("{x:03}"));
    }
}

#[test]
fn number_errors_read_as_in_std() {
    assert_eq!(
        NumberError::Empty.message(),
        "".parse::<u32>().unwrap_err().to_string()
    );
    assert_eq!(
        NumberError::InvalidDigit.message(),
        "x".parse::<u32>().unwrap_err().to_string()
    );
    assert_eq!(
        NumberError::TooLarge.message(),
        "4294967296".parse::<u32>().unwrap_err().to_string()
    );
}

#[test]
fn texts_are_searched_and_joined() {
    assert!(chars_contain(&to_chars("abcabd"), "abd"));
    assert!(chars_contain(&to_chars("x"), ""));
    assert!(!chars_contain(&to_chars("ab"), "abc"));
    assert_eq!(lower_chars("AbÄ"), vec!['a', 'b', 'Ä']);
    assert_eq!(upper_chars("aBß"), vec!['A', 'B', 'ß']);
    assert_eq!(from_chars(&to_chars("hello"), 1, 4), "ell");
    let parts = vec!["a".to_owned(), "b".to_owned(), "c".to_owned()];
    assert_eq!(join_texts(&parts, " | "), "a | b | c");
    assert_eq!(join_texts(&vec![], " | "), "");
}

fn piece(page_offset: u64, bytes: u64) -> PageFragment {
    PageFragment {
        segment: ElfSegment {
            p_type: 1,
            p_offset: 0,
            p_vaddr: 0,
            p_paddr: 0,
            p_filesz: 512,
            p_memsz: 512,
            p_flags: 5,
            p_align: 4,
        },
        segment_offset: 0,
        page_offset,
        bytes,
    }
}

#[test]
fn pages_stay_in_order() {
    let mut pages = PageMap::new();
    pages.add(512, piece(0, 4));
    pages.add(0, piece(8, 4));
    pages.add_empty(256);
    pages.add(512, piece(4, 4));
    pages.add_empty(512);
    assert_eq!(pages.addresses(), vec![0, 256, 512]);
    assert_eq!(
        pages.get(512),
        Some(&vec![piece(0, 4), piece(4, 4)])
    );
    assert_eq!(pages.get(0), Some(&vec![piece(8, 4)]));
    assert_eq!(pages.get(256), Some(&Vec::new()));
    assert_eq!(pages.get(300), None);
    assert!(!pages.is_empty());
    assert!(PageMap::new().is_empty());
}
