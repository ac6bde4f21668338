use fghj::lines::{join_file, join_lines, split_lines, split_text};
use fghj::number::{decimal, hexadecimal, parse_u16};
use fghj::paths::{file_name, join_path, lies_within, parts_of, same_path};
use fghj::same::Same;
use fghj::strmap::{sorted_unique, StrMap};
use fghj::text::{
    contains_text, find_after, join_texts, sanitize_label, text_less, texts_without,
};

fn texts(list: &[&str]) -> Vec<String> {
    list.iter().map(|s| s.to_string()).collect()
}

fn chars(s: &str) -> Vec<char> {
    s.chars().collect()
}

#[test]
fn a_map_keeps_its_keys_in_order() {
    let mut map = StrMap::new();
    for (i, key) in ["b", "a", "c", "a"].iter().enumerate() {
        map.insert(key.to_string(), i as u16);
    }
    assert_eq!(map.len(), 3);
    assert_eq!(map.key_list(), vec!["a", "b", "c"]);
    assert_eq!(map.get("a"), Some(&3));
    assert_eq!((map.key_at(1).as_str(), *map.value_at(1)), ("b", 0));
    assert_eq!(map.remove("b"), Some(0));
    assert_eq!(map.remove("b"), None);
    assert!(!map.contains_key("b") && map.contains_key("c"));
    assert_eq!(map.clone(), map);
    assert!(map.same(&map.clone()));
    assert!(!map.same(&StrMap::new()));
    assert_eq!(sorted_unique(&texts(&["b", "a", "b"])), vec!["a", "b"]);
}

#[test]
fn texts_are_ordered_as_strings_are() {
    for (a, b) in [("a", "b"), ("a", "aa"), ("", "a"), ("Z", "a"), ("a", "ü"), ("ab", "b")] {
        assert!(text_less(a, b));
        assert!(!text_less(b, a));
        assert_eq!(text_less(a, b), a < b);
    }
    assert!(!text_less("a", "a"));
}

#[test]
fn lines_are_read_as_the_standard_library_reads_them() {
    for text in ["", "a", "a\n", "a\r\nb", "\n\n", "a\rb\n", "a\n\r\n"] {
        let expected: Vec<String> = text.lines().map(|l| l.to_string()).collect();
        assert_eq!(split_lines(text), expected);
    }
    assert_eq!(join_lines(&texts(&["a", "b"])), "a\nb\n");
    assert_eq!(join_file(&texts(&["a", "b"])), "a\nb\n");
    assert_eq!(split_text(&chars("a&&b"), '&'), vec!["a", "", "b"]);
    assert_eq!(split_text(&chars(""), '&'), vec![""]);
}

#[test]
fn numbers_are_written_and_read() {
    assert_eq!(decimal(0), "0");
    assert_eq!(decimal(u64::MAX), u64::MAX.to_string());
    for text in ["0", "65535", "+7", "007"] {
        assert_eq!(parse_u16(text), text.parse::<u16>().ok());
    }
    for text in ["", "65536", "-1", "+", "1 ", "a", "99999999999999999999"] {
        assert_eq!(parse_u16(text), None);
        assert!(text.parse::<u16>().is_err());
    }
    assert_eq!(hexadecimal(255, 4).iter().collect::<String>(), "00ff");
    assert_eq!(hexadecimal(0x12345, 4).iter().collect::<String>(), "12345");
}

#[test]
fn paths_are_taken_apart() {
    assert_eq!(join_path("/a", "b"), "/a/b");
    assert_eq!(join_path("/a/", "b"), "/a/b");
    assert_eq!(join_path("", "b"), "b");
    assert_eq!(join_path("/a", "/b"), "/b");
    assert_eq!(parts_of("/a//b/./c/"), vec!["/", "a", "b", "c"]);
    assert_eq!(file_name("/a/b/").as_deref(), Some("b"));
    assert_eq!(file_name("/"), None);
    assert_eq!(file_name("/a/.."), None);
    assert!(same_path("/a/b", "/a/b/"));
    assert!(!same_path("/a/b", "a/b"));
    assert!(lies_within("/a/b", "/a"));
    assert!(lies_within("/a", "/a"));
    assert!(!lies_within("/ab", "/a"));
}

#[test]
fn texts_are_searched_and_joined() {
    let v = texts(&["a", "b", "a"]);
    assert!(contains_text(&v, "b") && !contains_text(&v, "c"));
    assert_eq!(texts_without(&v, &texts(&["a"])), vec!["b"]);
    assert_eq!(join_texts(&v, "."), "a.b.a");
    assert_eq!(join_texts(&vec![], "."), "");
    assert_eq!(find_after(&chars("x--y--z"), &chars("--")), Some(&chars("y--z")[..]));
    assert_eq!(find_after(&chars("xyz"), &chars("--")), None);
    assert_eq!(sanitize_label("My Shop_1!"), "my-shop-1-");
}
