use lore::decimal::{id_text, parse_id};
use lore::rank::{greater, order_key, rank, sort_ids};
use lore::sorted::{sort_once, TextSet};
use lore::text::{
    byte_len, chars_of, find, less_str, lower, part, rfind, same_str, split, split_lines, split_runs,
    string_of, tokenize, trim, CharClass,
};
use lore::paths::{basename, extension, forward_slashes, rel_path};
use lore::ui::{asset_path, mime_for, reply, Reply};

fn strings(v: Vec<Vec<char>>) -> Vec<String> {
    v.iter().map(|x| string_of(x)).collect()
}

#[test]
fn white_space_is_that_of_the_language() {
    for n in 0u32..0x11_0000 {
        if let Some(c) = char::from_u32(n) {
            assert_eq!(CharClass::Space.test(c), c.is_whitespace(), "at {n:x}");
            assert_eq!(CharClass::NonWord.test(c), !c.is_alphanumeric(), "at {n:x}");
        }
    }
}

#[test]
fn texts_are_split_as_the_language_splits_them() {
    for s in ["", "a", " a  b ", "x,y,,z", ",", "one\ntwo\r\n\nthree", "\n", "é\u{3000}ü"] {
        let cs = chars_of(s);
        let pieces: Vec<String> = s.split(',').map(|x| x.to_string()).collect();
        assert_eq!(strings(split(&cs, CharClass::Is(','))), pieces);
        let words: Vec<String> = s.split_whitespace().map(|x| x.to_string()).collect();
        assert_eq!(strings(split_runs(&cs, CharClass::Space)), words);
        let lines: Vec<String> = s.lines().map(|x| x.to_string()).collect();
        assert_eq!(strings(split_lines(&cs)), lines);
        assert_eq!(string_of(&trim(&cs)), s.trim());
        assert_eq!(byte_len(&cs), s.len());
    }
}

#[test]
fn texts_are_found_and_compared() {
    let cs = chars_of("abcabc");
    assert_eq!(find(&cs, &chars_of("ca")), Some(2));
    assert_eq!(find(&cs, &chars_of("x")), None);
    assert_eq!(rfind(&cs, &chars_of("abc")), Some(3));
    assert!(less_str("a", "b"));
    assert!(less_str("a", "ab"));
    assert!(!less_str("b", "a"));
    assert!(same_str("ä", "ä"));
    assert!(!same_str("a", "ä"));
    assert_eq!(string_of(&part(&cs, 1, 3)), "bc");
}

#[test]
fn tokens_are_lowered_words() {
    assert_eq!(strings(tokenize(&chars_of("Use Redb, a KV-store é"))), vec!["use", "redb", "kv", "store", "é"]);
    assert_eq!(string_of(&lower(&chars_of("ÄBC"))), "ÄBC".to_lowercase());
}

#[test]
fn ids_round_trip_through_decimal() {
    for id in [0u128, 7, 10, 42, u64::MAX as u128, u128::MAX] {
        assert_eq!(id_text(id), id.to_string());
        assert_eq!(parse_id(&id_text(id)), Some(id));
    }
    for s in ["", "+", "-1", "1a", "340282366920938463463374607431768211456", " 1", "+5", "007"] {
        assert_eq!(parse_id(s), s.parse::<u128>().ok(), "{s}");
    }
}

#[test]
fn order_keys_follow_the_numbers() {
    let xs = [f32::NEG_INFINITY, -2.5, -0.0, 0.0, f32::MIN_POSITIVE, 1.0, 3.5, f32::INFINITY];
    for a in xs {
        for b in xs {
            assert_eq!(greater(a.to_bits(), b.to_bits()), a > b, "{a} {b}");
            assert_eq!(order_key(a.to_bits()) == order_key(b.to_bits()), a == b);
        }
        assert!(!greater(f32::NAN.to_bits(), a.to_bits()));
        assert!(!greater(a.to_bits(), f32::NAN.to_bits()));
    }
}

#[test]
fn ranking_is_stable() {
    assert_eq!(rank(&vec![1, 5, 3, 5, 1]), vec![1, 3, 2, 0, 4]);
    assert_eq!(rank(&vec![]), Vec::<usize>::new());
    assert_eq!(sort_ids(&vec![3, 1, 2, 1]), vec![1, 2, 3]);
}

#[test]
fn sets_of_texts_are_sorted_once() {
    let v = vec!["b".to_string(), "a".to_string(), "b".to_string()];
    assert_eq!(sort_once(&v), vec!["a".to_string(), "b".to_string()]);
    let s = TextSet::of(&v);
    assert_eq!(s.len(), 2);
    assert!(s.contains("a"));
    assert!(!s.contains("c"));
    assert_eq!(s.place(&['b']), Some(1));
}

#[test]
fn paths_are_taken_apart() {
    assert_eq!(basename("a/b\\c.rs"), "c.rs");
    assert_eq!(basename("c.rs"), "c.rs");
    assert_eq!(extension("a.tar.gz").as_deref(), Some("gz"));
    assert_eq!(extension(".gitignore"), None);
    assert_eq!(extension("Makefile"), None);
    assert_eq!(forward_slashes("a\\b/c"), "a/b/c");
    assert_eq!(rel_path(Some("/repo"), "/repo/src/x.rs", "/repo/src/x.rs"), "src/x.rs");
    assert_eq!(rel_path(None, "src\\x.rs", "src\\x.rs"), "src/x.rs");
    let sibling = "/no/such/repo2/a.rs";
    assert_eq!(rel_path(Some("/no/such/repo"), sibling, sibling), sibling);
    assert_eq!(rel_path(Some("/no/such/repo"), "\\other\\a.rs", "\\other\\a.rs"), "/other/a.rs");
    assert_eq!(rel_path(Some("/repo"), "/repo", "/repo"), "");
    assert_eq!(rel_path(Some(""), "src\\x.rs", "src\\x.rs"), "src\\x.rs");
    assert_eq!(rel_path(Some(""), "/src/x.rs", "/src/x.rs"), "src/x.rs");
    assert_eq!(rel_path(Some("/repo/"), "/repo/a.rs", "/repo/a.rs"), "a.rs");
    assert_eq!(rel_path(Some("C:\\repo"), "x", "C:\\repo\\a.rs"), "a.rs");
    assert_eq!(rel_path(Some("/repo"), "/repo/a.rs", "/repo2/a.rs"), "a.rs");
}

#[test]
fn assets_are_resolved() {
    assert_eq!(asset_path("/"), "index.html");
    assert_eq!(asset_path("//app.js"), "app.js");
    assert_eq!(mime_for("app.js"), "text/javascript; charset=utf-8");
    assert_eq!(mime_for("x/y.woff2"), "font/woff2");
    assert_eq!(mime_for("html"), "text/html; charset=utf-8");
    assert_eq!(mime_for("data.bin"), "application/octet-stream");
    assert!(matches!(reply("app.css", true, true), Reply::Asset("text/css; charset=utf-8")));
    assert!(matches!(reply("graph/view", false, true), Reply::Shell));
    assert!(matches!(reply("favicon.ico", false, true), Reply::NotFound));
    assert!(matches!(reply("a.b/view", false, true), Reply::Shell));
    assert!(matches!(reply("graph/view", false, false), Reply::NotFound));
}
