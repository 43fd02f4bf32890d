use sensitive_rs::order::{less, same, sort_dedup_strings, sort_dedup_strs, sort_longest_first, sorted_indices};
use sensitive_rs::text::{
    append_chars, char_offsets, clone_strings, contains, find_from, from_chars,
    index_of_byte, matches_at, normalize_space_chars, repeat, replace_chars, slice_bytes, split_chunks,
    split_lines, split_words, string_of_range, strip_space_chars, to_chars,
};

fn chars(s: &str) -> Vec<char> {
    s.chars().collect()
}

fn text(v: &[char]) -> String {
    v.iter().collect()
}

#[test]
fn characters_round_trip() {
    assert_eq!(to_chars("a赌😀"), vec!['a', '赌', '😀']);
    assert_eq!(from_chars(&vec!['a', '赌', '😀']), "a赌😀");
    assert_eq!(from_chars(&to_chars("")), "");
    assert_eq!(string_of_range(&chars("abcdef"), 2, 3), "cde");
    assert_eq!(repeat('*', 3), vec!['*', '*', '*']);
    assert!(repeat('*', 0).is_empty());
    let mut out = chars("ab");
    append_chars(&mut out, &chars("cd"));
    assert_eq!(out, chars("abcd"));
    assert_eq!(clone_strings(&["a".to_string(), "b".to_string()]), vec!["a".to_string(), "b".to_string()]);
}

#[test]
fn occurrence_and_containment() {
    let t = chars("abcabc");
    assert!(matches_at(&t, &chars("bc"), 1));
    assert!(!matches_at(&t, &chars("bc"), 2));
    assert!(!matches_at(&t, &chars("bc"), 5));
    assert!(matches_at(&t, &chars(""), 6));
    assert!(!matches_at(&t, &chars(""), 7));
    assert_eq!(find_from(&t, &chars("bc"), 0), Some(1));
    assert_eq!(find_from(&t, &chars("bc"), 2), Some(4));
    assert_eq!(find_from(&t, &chars("bc"), 5), None);
    assert_eq!(find_from(&t, &chars(""), 6), Some(6));
    assert!(contains(&t, &chars("cab")));
    assert!(!contains(&t, &chars("cb")));
    assert!(contains(&t, &chars("")));
    assert!(contains(&chars(""), &chars("")));
}

#[test]
fn replacement_goes_left_to_right_without_overlap() {
    assert_eq!(text(&replace_chars(&chars("aaaa"), &chars("aa"), &chars("b"))), "bb");
    assert_eq!(text(&replace_chars(&chars("aaa"), &chars("aa"), &chars("b"))), "ba");
    assert_eq!(text(&replace_chars(&chars("abc"), &chars("x"), &chars("y"))), "abc");
    assert_eq!(text(&replace_chars(&chars("赌博 bad"), &chars("赌博"), &chars(""))), " bad");
    // an empty pattern matches before every character and at the end
    assert_eq!(text(&replace_chars(&chars("abc"), &chars(""), &chars("-"))), "-a-b-c-");
    assert_eq!(text(&replace_chars(&chars(""), &chars(""), &chars("-"))), "-");
    assert_eq!("abc".replace("", "-"), "-a-b-c-");
}

#[test]
fn whitespace_is_stripped_or_collapsed() {
    assert_eq!(text(&strip_space_chars(&chars(" a \t b\n"))), "ab");
    assert_eq!(text(&normalize_space_chars(&chars("  a \t b\n"))), " a b ");
    assert_eq!(text(&normalize_space_chars(&chars("a\u{3000}\u{3000}b"))), "a b");
    assert_eq!(text(&strip_space_chars(&chars(""))), "");
}

#[test]
fn byte_lengths_and_offsets() {
    let (c, offsets) = char_offsets("a赌😀é");
    assert_eq!(c, chars("a赌😀é"));
    assert_eq!(offsets, vec![0, 1, 4, 8, 10]);
    assert_eq!(index_of_byte(&c, &offsets, 4), Some(2));
    assert_eq!(index_of_byte(&c, &offsets, 10), Some(4));
    assert_eq!(index_of_byte(&c, &offsets, 2), None);
    assert_eq!(index_of_byte(&c, &offsets, 11), None);
    assert_eq!(slice_bytes(&c, &offsets, 1, 8), Some(chars("赌😀")));
    assert_eq!(slice_bytes(&c, &offsets, 4, 4), Some(Vec::new()));
    assert_eq!(slice_bytes(&c, &offsets, 2, 8), None);
    assert_eq!(slice_bytes(&c, &offsets, 8, 4), None);
}

#[test]
fn text_is_split_into_words_chunks_and_lines() {
    let words: Vec<String> = split_words(&chars("  ab  c\td ")).iter().map(|w| text(w)).collect();
    assert_eq!(words, vec!["ab", "c", "d"]);
    assert!(split_words(&chars("   ")).is_empty());
    let expected: Vec<&str> = "  ab  c\td ".split_whitespace().collect();
    assert_eq!(words, expected);

    let chunks: Vec<String> = split_chunks(&chars("abcdefg"), 3).iter().map(|w| text(w)).collect();
    assert_eq!(chunks, vec!["abc", "def", "g"]);
    assert!(split_chunks(&chars(""), 3).is_empty());
    assert_eq!(split_chunks(&chars("abc"), 3).len(), 1);

    let lines: Vec<String> = split_lines(&chars("a\r\nb\n\nc\r")).iter().map(|w| text(w)).collect();
    assert_eq!(lines, vec!["a", "b", "", "c\r"]);
    let lines: Vec<String> = split_lines(&chars("a\nb\n")).iter().map(|w| text(w)).collect();
    assert_eq!(lines, vec!["a", "b"]);
    assert!(split_lines(&chars("")).is_empty());
    let lines: Vec<String> = split_lines(&chars("\n")).iter().map(|w| text(w)).collect();
    assert_eq!(lines, vec![""]);
}

#[test]
fn order_is_by_code_point() {
    assert!(less(&chars("a"), &chars("b")));
    assert!(less(&chars(""), &chars("a")));
    assert!(less(&chars("ab"), &chars("abc")));
    assert!(!less(&chars("abc"), &chars("ab")));
    assert!(!less(&chars("a"), &chars("a")));
    assert!(less(&chars("z"), &chars("赌")));
    assert!(same(&chars("赌博"), &chars("赌博")));
    assert!(!same(&chars("赌博"), &chars("赌")));
    assert_eq!(sorted_indices(&vec![chars("b"), chars("a"), chars("b"), chars("")]), vec![3, 1, 0]);
    assert_eq!(sort_dedup_strs(&vec!["b", "a", "b", "赌", "B"]), vec!["B", "a", "b", "赌"]);
    let items = vec!["b".to_string(), "a".to_string(), "b".to_string()];
    assert_eq!(sort_dedup_strings(&items), vec!["a".to_string(), "b".to_string()]);
    let mut by_std = items.clone();
    by_std.sort_unstable();
    by_std.dedup();
    assert_eq!(sort_dedup_strings(&items), by_std);
}

#[test]
fn longest_first_is_stable_and_counts_bytes() {
    let items = vec!["ab".to_string(), "赌".to_string(), "abcd".to_string(), "xy".to_string(), "".to_string()];
    // "赌" has three bytes
    assert_eq!(
        sort_longest_first(&items),
        vec!["abcd".to_string(), "赌".to_string(), "ab".to_string(), "xy".to_string(), "".to_string()]
    );
    let mut by_std = items.clone();
    by_std.sort_by_key(|b| std::cmp::Reverse(b.len()));
    assert_eq!(sort_longest_first(&items), by_std);
}
