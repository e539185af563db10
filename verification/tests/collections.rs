use std::path::Path;

use reforge::file_sets::{file_set, is_path_before};
use reforge::ordered::{is_before, sort_by_key, sort_texts, Keyed, TextMap};
use reforge::paths::{path_starts_with, same_path, strip_root};
use reforge::snapshot::{ByAmount, ByPercentage, GasSnapshotDiff};
use reforge::text::{
    contains_str, decimal_text, join, lines, parse_isize, parse_usize, rsplit_once, signed_text,
    split_chars, split_once, split_once_str, trim, trim_end,
};

fn owned(list: &[&str]) -> Vec<String> {
    list.iter().map(|s| s.to_string()).collect()
}

#[test]
fn texts_are_ordered_as_in_std() {
    let list = ["", "a", "aa", "ab", "b", "é", "→", "Z", "\u{ffff}", "\u{10000}"];
    for a in list {
        for b in list {
            assert_eq!(is_before(a, b), a < b, "{a} {b}");
        }
    }
    let mut expected = owned(&list);
    expected.sort();
    assert_eq!(sort_texts(owned(&list)), expected);
}

#[test]
fn sorting_keeps_what_is_equal_in_order() {
    let item = |name: &str, source| GasSnapshotDiff {
        signature: name.to_string(),
        source_gas_used: source,
        target_gas_used: 0,
        percentage_rank: source % 10,
        percentage: String::new(),
    };
    let list = || vec![item("a", 12), item("b", 2), item("c", 11), item("d", 2)];
    let by_rank = sort_by_key::<ByPercentage, GasSnapshotDiff>(list(), false);
    let order: Vec<&str> = by_rank.iter().map(|d| d.signature.as_str()).collect();
    assert_eq!(order, ["c", "a", "b", "d"]);
    let by_amount = sort_by_key::<ByAmount, GasSnapshotDiff>(list(), true);
    let order: Vec<&str> = by_amount.iter().map(|d| d.signature.as_str()).collect();
    assert_eq!(order, ["a", "c", "b", "d"]);
    assert_eq!(Keyed::<ByAmount>::sort_key(&list()[0]), 12);
}

#[test]
fn maps_keep_their_keys_in_order() {
    let mut map: TextMap<u8> = TextMap::new();
    map.insert("b".to_string(), 1);
    map.insert("a".to_string(), 2);
    map.insert("c".to_string(), 3);
    map.insert("b".to_string(), 4);
    assert_eq!(map.len(), 3);
    assert_eq!(map.get("b"), Some(&4));
    assert_eq!(map.get("d"), None);
    let keys: Vec<&str> = map.entries.iter().map(|e| e.0.as_str()).collect();
    assert_eq!(keys, ["a", "b", "c"]);
    assert_eq!(map.position("bb"), 2);
    assert_eq!(map.take("b"), Some(4));
    assert_eq!(map.take("b"), None);
    assert_eq!(map.len(), 2);
}

#[test]
fn files_are_ordered_by_their_parts() {
    let list = ["a/b", "a-b", "/a", "./a", "../a", "a", "a/b/c", "", "-x", "..", "B"];
    for a in list {
        for b in list {
            assert_eq!(is_path_before(a, b), Path::new(a) < Path::new(b), "{a} {b}");
            assert_eq!(same_path(a, b), Path::new(a) == Path::new(b), "{a} {b}");
            assert_eq!(path_starts_with(a, b), Path::new(a).starts_with(b), "{a} {b}");
        }
    }
}

#[test]
fn each_file_is_kept_once() {
    let files = owned(&["src//b.sol", "src/a.sol", "src/b.sol", "lib/x.sol", "src/a.sol"]);
    assert_eq!(file_set(&files), ["lib/x.sol", "src/a.sol", "src//b.sol"]);
}

#[test]
fn roots_are_stripped() {
    assert_eq!(strip_root("/p/src/a.sol", "/p"), "src/a.sol");
    assert_eq!(strip_root("/p/src/a.sol", "/p/"), "src/a.sol");
    assert_eq!(strip_root("/q/src/a.sol", "/p"), "/q/src/a.sol");
    assert_eq!(strip_root("src/a.sol", ""), "src/a.sol");
}

#[test]
fn texts_are_split() {
    assert_eq!(split_once("a:b:c", ':'), Some(("a", "b:c")));
    assert_eq!(rsplit_once("a:b:c", ':'), Some(("a:b", "c")));
    assert_eq!(split_once("abc", ':'), None);
    assert_eq!(rsplit_once("abc", ':'), None);
    assert_eq!(split_once_str("a --> b --> c", "-->"), Some(("a ", " b --> c")));
    assert_eq!(split_once_str("abc", "-->"), None);
    assert_eq!(split_chars("a//b", '/'), ["a", "", "b"]);
    assert_eq!(lines("a\r\nb\n\nc"), ["a", "b", "", "c"]);
    assert_eq!(lines("a\n"), ["a"]);
    assert!(lines("").is_empty());
    assert!(contains_str("Foo.sol:1", ".sol"));
    assert!(!contains_str("Foo", ".sol"));
}

#[test]
fn white_space_is_that_of_std() {
    for c in ['\t', '\n', '\u{b}', '\r', ' ', '\u{85}', '\u{a0}', '\u{1680}', '\u{200a}',
        '\u{2028}', '\u{202f}', '\u{3000}', 'x', '\u{200b}', '\u{1c}']
    {
        let text = format!("{c}a{c}b{c}");
        assert_eq!(trim(&text), text.trim());
        assert_eq!(trim_end(&text), text.trim_end());
    }
}

#[test]
fn numbers_are_read_and_written() {
    for s in ["0", "-0", "+7", "-7", "007", "", "+", "-", "1x", " 1", "9223372036854775807",
        "9223372036854775808", "-9223372036854775808", "-9223372036854775809"]
    {
        assert_eq!(parse_isize(s), s.parse::<isize>().ok(), "{s}");
    }
    for s in ["0", "+7", "-7", "-0", "", "18446744073709551615", "18446744073709551616"] {
        assert_eq!(parse_usize(s), s.parse::<usize>().ok(), "{s}");
    }
    for n in [0u128, 9, 10, 1234567890, u128::MAX] {
        assert_eq!(decimal_text(n), n.to_string());
    }
    for n in [0i128, -1, 42, i128::MAX, i128::MIN] {
        assert_eq!(signed_text(n), n.to_string());
    }
}

#[test]
fn texts_are_joined() {
    assert_eq!(join(&owned(&["a", "b", "c"]), ", "), "a, b, c");
    assert_eq!(join(&owned(&["a"]), ", "), "a");
    assert_eq!(join(&Vec::new(), ", "), "");
}
