use th420_display::order::{key_of_text, lex_test, stable_order};
use th420_display::paths::{file_name_of, has_extension, is_of_type, join_path, stem_of};
use th420_display::table::Table;
use th420_display::text::{
    chars_of, contains_text, has_text, number_text, read_number, split_lines, split_words, text_of,
    to_lower, to_upper, trimmed, trimmed_text, CharSet,
};

fn words(s: &str) -> Vec<String> {
    split_words(&chars_of(s)).iter().map(|w| text_of(w)).collect()
}

fn lines(s: &str) -> Vec<String> {
    split_lines(&chars_of(s)).iter().map(|w| text_of(w)).collect()
}

#[test]
fn texts_are_split_like_their_standard_counterparts() {
    for s in ["", "\n", "a\nb", "a\r\nb\r", "a\n\nb\n", " x\ty \u{3000}z\u{85}", "\r\n", "a\rb"] {
        let want: Vec<&str> = s.lines().collect();
        assert_eq!(lines(s), want, "{s:?}");
        let want: Vec<&str> = s.split_whitespace().collect();
        assert_eq!(words(s), want, "{s:?}");
        assert_eq!(trimmed_text(s), s.trim(), "{s:?}");
    }
}

#[test]
fn white_space_is_that_of_unicode() {
    for n in 0..0x1_1000u32 {
        if let Some(c) = char::from_u32(n) {
            assert_eq!(CharSet::White.contains(c), c.is_whitespace(), "{n:x}");
        }
    }
}

#[test]
fn trimming_twice_changes_nothing() {
    let once = trimmed(&chars_of(" . a.b . "), CharSet::NameEdge);
    assert_eq!(text_of(&once), "a.b");
    assert_eq!(trimmed(&once, CharSet::NameEdge), once);
}

#[test]
fn case_is_changed_for_ascii_letters_only() {
    assert_eq!(text_of(&to_lower(&chars_of("AzÄ[@"))), "azÄ[@");
    assert_eq!(text_of(&to_upper(&chars_of("aZä{`"))), "AZä{`");
}

#[test]
fn texts_are_searched() {
    assert!(contains_text("abcabd", "abd"));
    assert!(!contains_text("abcab", "abd"));
    assert!(contains_text("x", ""));
    assert!(has_text(&["a".to_string(), "b".to_string()], "b"));
    assert!(!has_text(&[], "b"));
}

#[test]
fn numbers_read_back() {
    for n in [0, 7, 10, 255, 256, 65_535, 1_000_000, u64::MAX] {
        assert_eq!(number_text(n), n.to_string());
        assert_eq!(read_number(&chars_of(&number_text(n)), u64::MAX), Some(n));
    }
    assert_eq!(read_number(&chars_of("+5"), 10), Some(5));
    assert_eq!(read_number(&chars_of("+"), 10), None);
    assert_eq!(read_number(&chars_of("0011"), 10), None);
    assert_eq!(read_number(&chars_of("0010"), 10), Some(10));
    assert_eq!(read_number(&chars_of("٣"), 10), None);
}

#[test]
fn paths_are_taken_apart_like_their_standard_counterparts() {
    for p in [
        "/a/b.toml", "b", "/", "", "a/", "a/b//", "a/.", "a/..", "..", ".", "/x/./", ".hidden",
        "a.b.c", "x.", "a//b",
    ] {
        let want = std::path::Path::new(p).file_name().map(|s| s.to_str().unwrap().to_string());
        let got = file_name_of(p).map(|n| text_of(&n));
        assert_eq!(got, want, "{p:?}");
        if let Some(name) = got {
            let path = std::path::Path::new(&name);
            let chars = chars_of(&name);
            assert_eq!(text_of(&stem_of(&chars)), path.file_stem().unwrap().to_str().unwrap());
            let ext = path.extension().map(|s| s.to_str().unwrap()).unwrap_or("?");
            assert!(ext == "?" || has_extension(&chars, ext));
            assert!(!has_extension(&chars, "other"));
        }
    }
    assert!(is_of_type("/x/Movie.GIF", "gif"));
    assert!(!is_of_type("/x/gif", "gif"));
}

#[test]
fn paths_are_joined() {
    assert_eq!(join_path("/a", "b"), "/a/b");
    assert_eq!(join_path("/a/", "b"), "/a/b");
    assert_eq!(join_path("", "b"), "b");
    assert_eq!(file_name_of(&join_path("/a", "b.c")).map(|n| text_of(&n)).unwrap(), "b.c");
}

#[test]
fn stable_order_is_a_stable_sort() {
    let keys: Vec<Vec<i64>> = vec![vec![2], vec![1, 5], vec![], vec![1], vec![2], vec![-1]];
    let order = stable_order(&keys);
    assert_eq!(order, [2, 5, 3, 1, 0, 4]);
    assert!(lex_test(&[1], &[1, 5]) && !lex_test(&[1, 5], &[1]));
    assert!(lex_test(&[1], &[1]));
    assert_eq!(key_of_text(&['a', 'b']), [97, 98]);
    for a in &keys {
        for b in &keys {
            assert_eq!(lex_test(a, b), a <= b);
        }
    }
}

#[test]
fn tables_hold_one_value_per_key() {
    let mut t: Table<u32> = Table::new();
    assert_eq!(t.get("a"), None);
    t.insert("a", 1);
    t.insert("b", 2);
    t.insert("a", 3);
    assert_eq!(t.get("a"), Some(&3));
    assert_eq!(t.entries.len(), 2);
    t.remove("a");
    t.remove("x");
    assert_eq!(t.get("a"), None);
    assert_eq!(t.get("b"), Some(&2));
}
