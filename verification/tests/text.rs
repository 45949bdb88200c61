use dotnet_dependency_parser::dependency::Dependency;
use dotnet_dependency_parser::text::{ends_with, lex_less, split_whitespace, trim};

#[test]
fn trim_removes_surrounding_white_space() {
    assert_eq!(trim("  a b \t\n"), "a b");
    assert_eq!(trim(""), "");
    assert_eq!(trim(" \u{3000} "), "");
    assert_eq!(trim("x"), "x");
}

#[test]
fn words_are_runs_without_white_space() {
    let words: Vec<String> = split_whitespace("  Serilog >=\t4.0.0 ").into_iter().map(|w| w.into_iter().collect()).collect();
    assert_eq!(words, vec!["Serilog", ">=", "4.0.0"]);
    assert!(split_whitespace(" \n ").is_empty());
}

#[test]
fn suffixes() {
    assert!(ends_with("a.json", ".json"));
    assert!(ends_with("x", ""));
    assert!(!ends_with("json", "a.json"));
}

#[test]
fn new_dependency_has_no_dependencies() {
    let d = Dependency::new("a".to_string());
    assert_eq!(d.name, "a");
    assert!(d.deps.is_empty());
}

#[test]
fn names_are_ordered_like_std_strings() {
    let words = ["", "a", "ab", "b", "B", "Z", "\u{e9}", "\u{e4}", "abc", "ab"];
    for x in words.iter() {
        for y in words.iter() {
            assert_eq!(lex_less(x, y), x < y, "{} < {}", x, y);
        }
    }
}

#[test]
fn white_space_is_what_std_says() {
    for n in 0u32..0x3100 {
        if let Some(c) = char::from_u32(n) {
            let s = c.to_string();
            assert_eq!(split_whitespace(&s).is_empty(), c.is_whitespace(), "U+{:04X}", n);
        }
    }
    assert_eq!(trim("\u{3000}x\u{85}"), "x");
}
