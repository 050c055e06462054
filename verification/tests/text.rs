use core_latency::number::{dec_text, parse_u64, parse_usize, push_dec, push_hex, push_i32};
use core_latency::text::{
    contains_text, find, join, last_word, list_text, push_padded, push_padded_right, split, trim,
};

fn s(items: &[&str]) -> Vec<String> {
    items.iter().map(|x| x.to_string()).collect()
}

#[test]
fn trimmed_as_by_std() {
    for text in ["", "  ", " a b ", "\ta\n", "\u{a0}x\u{3000}", "\u{200b}x", "a"] {
        assert_eq!(trim(text), text.trim());
    }
}

#[test]
fn split_as_by_std() {
    for text in ["", ",", "a", "a,b", ",a,,b,", "ä,ö"] {
        assert_eq!(split(text, ','), text.split(',').collect::<Vec<&str>>());
        assert_eq!(contains_text(text, ",b"), text.contains(",b"));
        assert!(contains_text(text, ""));
    }
}

#[test]
fn split_undoes_join() {
    let parts = s(&["a", "", "b c"]);
    assert_eq!(join(&parts, ","), "a,,b c");
    assert_eq!(split(&join(&parts, ","), ','), vec!["a", "", "b c"]);
    assert_eq!(list_text(&parts), "[a, , b c]");
    assert_eq!(list_text(&s(&[])), "[]");
}

#[test]
fn found() {
    assert_eq!(find("a-b-c", '-'), Some(1));
    assert_eq!(find("äö-", '-'), Some(2));
    assert_eq!(find("abc", '-'), None);
}

#[test]
fn last_words() {
    assert_eq!(last_word("a bc  ").map(|w| w.1), Some("bc"));
    assert_eq!(last_word("a bc  ").and_then(|w| last_word(w.0)).map(|w| w.1), Some("a"));
    assert_eq!(last_word("  "), None);
}

#[test]
fn padded() {
    let mut out = String::from(">");
    push_padded(&mut out, "ab", 4);
    push_padded_right(&mut out, "cd", 4);
    push_padded(&mut out, "efghi", 4);
    push_padded_right(&mut out, "jk", 1);
    assert_eq!(out, ">  abcd  efghijk");
}

#[test]
fn numbers_written() {
    let mut out = String::new();
    push_dec(&mut out, u64::MAX);
    out.push(' ');
    push_i32(&mut out, i32::MIN);
    out.push(' ');
    push_hex(&mut out, 0xdead_beef_0);
    out.push(' ');
    push_hex(&mut out, 0);
    assert_eq!(out, "18446744073709551615 -2147483648 deadbeef0 0");
    assert_eq!(dec_text(1024), "1024");
}

#[test]
fn numbers_read_as_by_std() {
    for text in ["", "0", "007", "+5", "-5", "+", "1 ", "12x", "18446744073709551615", "18446744073709551616", "+-1", "٣"] {
        assert_eq!(parse_usize(text), text.parse::<usize>().ok(), "{text}");
        assert_eq!(parse_u64(text), text.parse::<u64>().ok(), "{text}");
    }
}

#[test]
fn numbers_read_back() {
    for n in [0, 9, 10, 12345, usize::MAX] {
        assert_eq!(parse_usize(&dec_text(n)), Some(n));
    }
}
