use fmad::config::parse_id;
use fmad::init::vec_string_from_string;
use fmad::text::{decimal_string, join_strings, same_text, trim_str};

fn strings(items: &[&str]) -> Vec<String> {
    items.iter().map(|s| s.to_string()).collect()
}

#[test]
fn trim_removes_ascii_whitespace_at_both_ends() {
    assert_eq!(trim_str("  a b \t\n"), "a b");
}

#[test]
fn trim_removes_unicode_whitespace() {
    assert_eq!(trim_str("\u{3000}\u{a0}x y\u{2028}\u{85}"), "x y");
}

#[test]
fn trim_of_only_whitespace_is_empty() {
    assert_eq!(trim_str(" \t \r\n"), "");
}

#[test]
fn trim_agrees_with_std_trim() {
    for s in ["", " ", "a", " a ", "\u{200b}a", "a\u{200a}", "\u{1680}b\u{205f}", "x\u{180e}"] {
        assert_eq!(trim_str(s), s.trim(), "input {:?}", s);
    }
}

#[test]
fn trim_twice_is_trim_once() {
    let once = trim_str(" \u{2000} spaced out \u{3000} ");
    assert_eq!(trim_str(&once), once);
}

#[test]
fn empty_text_gives_no_ingredient() {
    assert_eq!(vec_string_from_string(""), Vec::<String>::new());
}

#[test]
fn ingredients_are_split_at_commas_and_trimmed() {
    assert_eq!(vec_string_from_string("egg, milk ,flour"), strings(&["egg", "milk", "flour"]));
}

#[test]
fn empty_pieces_are_kept() {
    assert_eq!(vec_string_from_string("a,,b,"), strings(&["a", "", "b", ""]));
}

#[test]
fn blank_text_gives_one_empty_ingredient() {
    assert_eq!(vec_string_from_string("   "), strings(&[""]));
}

#[test]
fn ingredient_list_agrees_with_split_and_trim() {
    for s in ["x", " x , y ", ",", "a,b,c", "\tq\t,\u{3000}r"] {
        let want: Vec<String> = s.split(",").map(|p| p.trim().to_string()).collect();
        assert_eq!(vec_string_from_string(s), want, "input {:?}", s);
    }
}

#[test]
fn joined_ingredients_read_back_the_same() {
    let items = strings(&["egg", "", "sour cream", "salt"]);
    let joined = join_strings(&items, ", ");
    assert_eq!(joined, "egg, , sour cream, salt");
    assert_eq!(vec_string_from_string(&joined), items);
}

#[test]
fn single_empty_item_does_not_read_back() {
    let items = strings(&[""]);
    let joined = join_strings(&items, ", ");
    assert_eq!(vec_string_from_string(&joined), Vec::<String>::new());
}

#[test]
fn join_of_nothing_is_empty() {
    assert_eq!(join_strings(&Vec::new(), ", "), "");
}

#[test]
fn join_of_one_is_that_one() {
    assert_eq!(join_strings(&strings(&["only"]), ", "), "only");
}

#[test]
fn decimal_of_zero() {
    assert_eq!(decimal_string(0), "0");
}

#[test]
fn decimal_of_numbers() {
    assert_eq!(decimal_string(7), "7");
    assert_eq!(decimal_string(10), "10");
    assert_eq!(decimal_string(1234), "1234");
    assert_eq!(decimal_string(usize::MAX), usize::MAX.to_string());
}

#[test]
fn decimal_reads_back() {
    for n in [0usize, 9, 10, 99, 100, 65535, 1_000_001] {
        assert_eq!(decimal_string(n).parse::<usize>().unwrap(), n);
    }
}

#[test]
fn same_text_compares_characters() {
    assert!(same_text("👉", "👉"));
    assert!(!same_text("👉", "👈"));
    assert!(!same_text("ab", "abc"));
}

#[test]
fn ids_are_read_as_unsigned_numbers() {
    assert_eq!(parse_id("123"), Some(123));
    assert_eq!(parse_id("+5"), Some(5));
    assert_eq!(parse_id("007"), Some(7));
    assert_eq!(parse_id("18446744073709551615"), Some(u64::MAX));
    assert_eq!(parse_id("18446744073709551616"), None);
    assert_eq!(parse_id(""), None);
    assert_eq!(parse_id("+"), None);
    assert_eq!(parse_id("-1"), None);
    assert_eq!(parse_id("12a"), None);
    assert_eq!(parse_id(" 1"), None);
}

#[test]
fn ids_are_read_as_std_reads_them() {
    for s in ["0", "1", "+0", "++1", "99999999999999999999", "1_000", "٣", "42\n", "1234567890123"] {
        assert_eq!(parse_id(s), s.parse::<u64>().ok(), "input {:?}", s);
    }
}

#[test]
fn decimal_of_an_id_reads_back() {
    for n in [0u64, 1, 10, 4096, u64::MAX] {
        assert_eq!(parse_id(&decimal_string(n as usize)), Some(n));
    }
}
