use llmcli::media::extension;
use llmcli::text::{
    chars_of, contains, find, is_white_space, join, parse_usize, push_decimal, push_padded_left,
    push_padded_right, same_bytes, same_text, starts_with, string_of, trim,
};

#[test]
fn white_space_is_that_of_char() {
    for u in 0..=0x10FFFFu32 {
        if let Some(c) = char::from_u32(u) {
            assert_eq!(is_white_space(c), c.is_whitespace(), "{:?}", c);
        }
    }
}

#[test]
fn trim_is_that_of_str() {
    for s in [
        "", " ", "a", "  a b\t\n", "\u{3000}가 나\u{a0}", "\r\n", "x\u{200b}", "\u{2003}x\u{85}y ",
    ] {
        assert_eq!(trim(s), s.trim());
    }
}

#[test]
fn numbers_are_read_as_str_parse_reads_them() {
    let max = usize::MAX.to_string();
    let over = format!("{}0", max);
    let just_over = "18446744073709551616";
    for s in [
        "", "+", "-", "0", "007", "+12", "-1", "1 ", " 1", "1_000", "12a", "٣", "99", "++1",
        max.as_str(), over.as_str(), just_over, "000000000000000000000000000000000001",
    ] {
        assert_eq!(parse_usize(s), s.parse::<usize>().ok(), "{:?}", s);
    }
}

#[test]
fn numbers_are_written_as_display_writes_them() {
    for n in [0usize, 7, 10, 42, 100, 1999, 1_000_000, usize::MAX] {
        let mut s = String::from("n=");
        push_decimal(&mut s, n);
        assert_eq!(s, format!("n={}", n));
    }
}

#[test]
fn padding_counts_characters() {
    for s in ["", "a", "한글", "exactly7", "longer than that"] {
        let mut left = String::from("|");
        push_padded_left(&mut left, s, 7);
        assert_eq!(left, format!("|{:>7}", s));
        let mut right = String::from("|");
        push_padded_right(&mut right, s, 7);
        assert_eq!(right, format!("|{:<7}", s));
    }
}

#[test]
fn strings_and_characters_convert() {
    let v = chars_of("가a\u{1F600}");
    assert_eq!(v, vec!['가', 'a', '\u{1F600}']);
    assert_eq!(string_of(&v, 1, 3), "a\u{1F600}");
    assert_eq!(string_of(&v, 2, 2), "");
    assert_eq!(find(&v, 0, 'a'), 1);
    assert_eq!(find(&v, 2, 'a'), 3);
}

#[test]
fn texts_are_compared_by_their_characters() {
    assert!(same_text("né", "né"));
    assert!(!same_text("ne", "né"));
    assert!(!same_text("n", "né"));
    assert!(same_bytes(&[1, 2], &[1, 2]));
    assert!(!same_bytes(&[1, 2], &[1, 3]));
}

#[test]
fn searching_is_that_of_str() {
    let texts = ["", "a", "ab", "aab", "gemma3:4b", "한글 모델"];
    for s in texts {
        for part in ["", "a", "ab", "b", "ma3", "글 ", "zz"] {
            assert_eq!(contains(s, part), s.contains(part), "{:?} in {:?}", part, s);
            assert_eq!(starts_with(s, part), s.starts_with(part));
        }
    }
}

#[test]
fn joining_puts_the_separator_between() {
    let v = vec!["a".to_string(), "".to_string(), "나".to_string()];
    assert_eq!(join(&v, ", "), v.join(", "));
    assert_eq!(join(&Vec::new(), ", "), "");
    assert_eq!(join(&vec!["x".to_string()], ", "), "x");
}

#[test]
fn extension_is_that_of_path() {
    for p in [
        "", "a", "a.png", "a.b.png", ".png", "..png", "a.", ".", "..", "a/..", "a/.", "a.txt/.",
        "a.txt/", "a.txt//./", "/", "/.", "/x.y/z", "/x.y/.z", "dir.d/../b.gz", "한글.이미지",
        "./.", "./a.b", "a./b", "...", "a..", "/a.b/..", "x/.hidden.tar",
    ] {
        let expected = std::path::Path::new(p).extension().and_then(|e| e.to_str());
        assert_eq!(extension(p).as_deref(), expected, "{:?}", p);
    }
}
