use always_on_memory::text::{
    chars_of, copy_texts, find, find_last, is_whitespace, push_joined, same_text, strip_word, text_of, trim_range,
};
use always_on_memory::wordset::{lower_set, path_set, word_set, WordSet};

fn chars(s: &str) -> Vec<char> {
    chars_of(s)
}

fn members(set: &WordSet) -> Vec<String> {
    let mut list: Vec<String> = (0..set.len()).map(|i| set.get(i).clone()).collect();
    list.sort();
    list
}

#[test]
fn white_space_is_that_of_unicode() {
    for u in 0..=0x10ffff_u32 {
        if let Some(c) = char::from_u32(u) {
            assert_eq!(is_whitespace(c), c.is_whitespace(), "{u:x}");
        }
    }
}

#[test]
fn texts_are_found_at_their_first_place() {
    assert_eq!(find(&chars("abcabc"), &chars("ca")), Some(2));
    assert_eq!(find(&chars("abcabc"), &chars("abc")), Some(0));
    assert_eq!(find(&chars("abc"), &chars("")), Some(0));
    assert_eq!(find(&chars(""), &chars("")), Some(0));
    assert_eq!(find(&chars("ab"), &chars("abc")), None);
    assert_eq!(find(&chars("aab"), &chars("ab")), Some(1));
    assert_eq!(find_last(&chars("a}b}c"), '}'), Some(3));
    assert_eq!(find_last(&chars("abc"), '}'), None);
}

#[test]
fn texts_are_trimmed() {
    let t = chars(" \t\u{3000}a b\n ");
    assert_eq!(trim_range(&t, 0, t.len()), "a b");
    assert_eq!(trim_range(&chars("   "), 0, 3), "");
    assert_eq!(strip_word(&chars("«hello?!")), "hello");
    assert_eq!(strip_word(&chars("(ai-first),")), "ai-first");
    assert_eq!(strip_word(&chars("--")), "");
    assert_eq!(strip_word(&chars("été.")), "été");
}

#[test]
fn texts_are_compared_copied_and_joined() {
    assert!(same_text("a", "a"));
    assert!(!same_text("a", "A"));
    assert_eq!(text_of(&chars("héllo"), 1, 4), "éll");
    let list = vec!["a".to_string(), "b".to_string(), "c".to_string()];
    assert_eq!(copy_texts(&list), list);
    let mut text = String::from("[");
    push_joined(&mut text, &list, ", ");
    assert_eq!(text, "[a, b, c");
    let mut none = String::new();
    push_joined(&mut none, &vec![], ", ");
    assert_eq!(none, "");
}

#[test]
fn sets_hold_each_text_once() {
    let mut set = WordSet::new();
    set.insert("a".to_string());
    set.insert("b".to_string());
    set.insert("a".to_string());
    assert_eq!(set.len(), 2);
    assert!(set.contains(&"a".to_string()));
    assert!(!set.contains(&"c".to_string()));
}

#[test]
fn texts_are_cut_into_words() {
    assert_eq!(members(&word_set("  the cat\tthe\n dog ")), vec!["cat", "dog", "the"]);
    assert_eq!(members(&word_set("   ")), Vec::<String>::new());
    assert_eq!(members(&word_set("")), Vec::<String>::new());
}

#[test]
fn paths_are_cut_into_parts() {
    assert_eq!(members(&path_set("a/b\\c.txt")), vec!["a", "b", "c", "txt"]);
    // Empty parts count, as between two separators and around them.
    assert_eq!(members(&path_set("/a//b")), vec!["", "a", "b"]);
    assert_eq!(members(&path_set("")), vec![""]);
}

#[test]
fn lists_are_set_in_lower_case() {
    let list = vec!["Rust".to_string(), "RUST".to_string(), "ÉTÉ".to_string(), "ΑΣ".to_string()];
    assert_eq!(members(&lower_set(&list)), vec!["rust", "été", "ας"]);
}
