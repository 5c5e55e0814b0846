use facet_dev::order::{compare_texts, sorted_set, Relation};
use facet_dev::text::{
    contains, decimal_of, is_whitespace, join, lines, replace_all, same_text, starts_with, trim,
    trim_end,
};

/// Every text of at most `max` characters from the given ones.
fn all_texts(alphabet: &[char], max: usize) -> Vec<String> {
    let mut all = vec![String::new()];
    let mut from = 0;
    for _ in 0..max {
        let upto = all.len();
        for i in from..upto {
            for c in alphabet {
                let mut longer = all[i].clone();
                longer.push(*c);
                all.push(longer);
            }
        }
        from = upto;
    }
    all
}

#[test]
fn it_works() {
    // well, it does work!
}

#[test]
fn whitespace_is_that_of_unicode() {
    for code in 0..=0x10ffffu32 {
        if let Some(c) = char::from_u32(code) {
            assert_eq!(is_whitespace(c), c.is_whitespace(), "{:?}", c);
        }
    }
}

#[test]
fn trimming_agrees_with_std() {
    for text in all_texts(&['a', ' ', '\u{3000}', '"', '\n'], 5) {
        assert_eq!(trim(&text), text.trim());
        assert_eq!(trim_end(&text), text.trim_end());
    }
    assert_eq!(trim("\t [package] \r"), "[package]");
}

#[test]
fn lines_agree_with_std() {
    for text in all_texts(&['a', '\r', '\n', 'é'], 6) {
        let expected: Vec<&str> = text.lines().collect();
        assert_eq!(lines(&text), expected, "{:?}", text);
    }
    assert_eq!(lines("one\r\ntwo\n\nfour\r"), ["one", "two", "", "four\r"]);
    assert!(lines("").is_empty());
}

#[test]
fn ended_lines_are_read_back() {
    assert_eq!(lines("a.rs\n\nsrc/b c.rs\n"), ["a.rs", "", "src/b c.rs"]);
}

#[test]
fn searching_agrees_with_std() {
    let texts = all_texts(&['a', 'b'], 5);
    let patterns = all_texts(&['a', 'b'], 3);
    for text in &texts {
        for pattern in &patterns {
            assert_eq!(contains(text, pattern), text.contains(pattern.as_str()));
            assert_eq!(starts_with(text, pattern), text.starts_with(pattern.as_str()));
            assert_eq!(same_text(text, pattern), text == pattern);
            if !pattern.is_empty() {
                assert_eq!(replace_all(text, pattern, "-"), text.replace(pattern.as_str(), "-"));
                assert_eq!(replace_all(text, pattern, "a"), text.replace(pattern.as_str(), "a"));
            }
        }
    }
}

#[test]
fn joining_texts_agrees_with_std() {
    let none: Vec<String> = Vec::new();
    assert_eq!(join(&none, ", "), "");
    let parts = vec!["facet".to_string(), "".to_string(), "facet-core".to_string()];
    assert_eq!(join(&parts, ", "), "facet, , facet-core");
    assert_eq!(join(&parts[..1].to_vec(), ", "), "facet");
}

#[test]
fn decimals_agree_with_display() {
    for n in [0, 7, 9, 10, 11, 99, 100, 101, 12345, u64::MAX] {
        assert_eq!(decimal_of(n), n.to_string());
    }
}

#[test]
fn order_of_texts_is_that_of_strings() {
    let texts = all_texts(&['a', 'Z', 'é', '\u{ffff}', '\u{10000}'], 3);
    for a in &texts {
        for b in &texts {
            let expected = if a < b {
                Relation::Before
            } else if a == b {
                Relation::Same
            } else {
                Relation::After
            };
            assert_eq!(compare_texts(a, b), expected, "{:?} {:?}", a, b);
        }
    }
}

#[test]
fn sorted_sets_agree_with_btree_sets() {
    let words = ["src/b.rs", "a", "src/a.rs", "a", "B", "", "src/b.rs", "é"];
    let items: Vec<String> = words.iter().map(|w| w.to_string()).collect();
    let expected: std::collections::BTreeSet<String> = items.iter().cloned().collect();
    let expected: Vec<String> = expected.into_iter().collect();
    assert_eq!(sorted_set(items), expected);
    assert!(sorted_set(Vec::new()).is_empty());
}
