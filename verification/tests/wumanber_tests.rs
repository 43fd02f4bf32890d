use sensitive_rs::{Match, SpaceHandling, WuManber};

fn strings(items: &[&str]) -> Vec<String> {
    items.iter().map(|s| s.to_string()).collect()
}

#[test]
fn test_basic_matching() {
    let wm =
        WuManber::new_chinese(vec!["色情".to_string(), "赌博".to_string(), "诈骗".to_string(), "扯蛋".to_string()]);

    assert_eq!(wm.search_string("正常内容"), None);
    assert_eq!(wm.search_string("测试含有赌博内容"), Some("赌博".to_string()));
    assert_eq!(wm.search_string("测试还有色情赌博图片"), Some("色情".to_string()));
    assert_eq!(wm.search_string("测试有色情赌博图片"), Some("色情".to_string()));
    assert_eq!(wm.search_string("还有诈骗色情测试"), Some("诈骗".to_string()));
}

#[test]
fn test_varied_length() {
    let wm = WuManber::new(vec!["赌".to_string(), "赌博".to_string(), "赌博机".to_string()], 1);

    assert_eq!(wm.search_string("赌"), Some("赌".to_string()));
    assert_eq!(wm.search_string("赌博"), Some("赌".to_string()));
    assert_eq!(wm.search_string("赌博机"), Some("赌".to_string()));
}

#[test]
fn test_space_handling_strategies() {
    let patterns = vec!["hello world".to_string(), "test  pattern".to_string()];

    let wm_strict = WuManber::new_with_space_handling(patterns.clone(), SpaceHandling::Strict);
    assert_eq!(wm_strict.search_string("hello world"), Some("hello world".to_string()));
    assert_eq!(wm_strict.search_string("helloworld"), None);

    let wm_ignore = WuManber::new_with_space_handling(patterns.clone(), SpaceHandling::IgnoreSpaces);
    assert_eq!(wm_ignore.search_string("hello world"), Some("hello world".to_string()));
    assert_eq!(wm_ignore.search_string("helloworld"), Some("hello world".to_string()));

    let wm_normalize = WuManber::new_with_space_handling(patterns.clone(), SpaceHandling::NormalizeSpaces);
    assert_eq!(wm_normalize.search_string("test  pattern"), Some("test  pattern".to_string()));
    assert_eq!(wm_normalize.search_string("test   pattern"), Some("test  pattern".to_string()));
}

#[test]
fn test_mixed_patterns() {
    let mixed_patterns =
        vec!["关键词2500".to_string(), "关键词 3000".to_string(), "test".to_string(), "hello world".to_string()];

    let wm = WuManber::new_chinese(mixed_patterns);

    assert_eq!(wm.search_string("包含关键词2500的文本"), Some("关键词2500".to_string()));
    assert_eq!(wm.search_string("包含关键词 3000 的文本"), Some("关键词 3000".to_string()));
    assert_eq!(wm.search_string("this is test"), Some("test".to_string()));
    assert_eq!(wm.search_string("say hello world"), Some("hello world".to_string()));
}

#[test]
fn test_complex_patterns_with_spaces() {
    let complex_patterns = vec![
        "Hello World".to_string(),
        "你好 世界".to_string(),
        "multiple   spaces".to_string(),
        "tab\there".to_string(),
        "new\nline".to_string(),
    ];

    let wm = WuManber::new_chinese(complex_patterns);

    assert_eq!(wm.search_string("Say Hello World"), Some("Hello World".to_string()));
    assert_eq!(wm.search_string("说你好 世界"), Some("你好 世界".to_string()));
    assert_eq!(wm.search_string("has multiple   spaces here"), Some("multiple   spaces".to_string()));
    assert_eq!(wm.search_string("tab\there you go"), Some("tab\there".to_string()));
    assert_eq!(wm.search_string("new\nline break"), Some("new\nline".to_string()));
}

#[test]
fn test_ignore_spaces_functionality() {
    let patterns = vec!["关键词 2500".to_string(), "hello world".to_string()];
    let wm = WuManber::new_with_space_handling(patterns, SpaceHandling::IgnoreSpaces);

    assert_eq!(wm.search_string("关键词2500"), Some("关键词 2500".to_string()));
    assert_eq!(wm.search_string("关键词 2500"), Some("关键词 2500".to_string()));
    assert_eq!(wm.search_string("关键词  2500"), Some("关键词 2500".to_string()));
    assert_eq!(wm.search_string("helloworld"), Some("hello world".to_string()));
    assert_eq!(wm.search_string("hello world"), Some("hello world".to_string()));
}

#[test]
fn test_parallel_performance() {
    let patterns: Vec<String> = (0..5000).map(|i| format!("关键词{i}")).collect();

    let wm_seq = WuManber::new(patterns.clone(), 2);
    let wm_par = WuManber::new_parallel(patterns, 2);

    let text = "这里包含关键词2500和关键词3000";

    let result_seq = wm_seq.search_all_strings(text);
    let result_par = wm_par.search_all_strings(text);

    assert_eq!(result_seq.len(), result_par.len());
    assert!(result_seq.contains(&"关键词2500".to_string()));
    assert!(result_seq.contains(&"关键词3000".to_string()));

    for item in &result_seq {
        assert!(result_par.contains(item));
    }
}

#[test]
fn test_search_all_functionality() {
    let wm = WuManber::new_chinese(vec!["苹果".to_string(), "香蕉".to_string(), "橙子".to_string()]);

    let text = "我喜欢吃苹果、香蕉和橙子";
    let results = wm.search_all_strings(text);

    assert_eq!(results.len(), 3);
    assert!(results.contains(&"苹果".to_string()));
    assert!(results.contains(&"香蕉".to_string()));
    assert!(results.contains(&"橙子".to_string()));
}

#[test]
fn strict_search_finds_and_misses() {
    let wm = WuManber::new_chinese(strings(&["赌博", "色情", "诈骗"]));
    assert_eq!(wm.search_string("正常内容"), None);
    assert_eq!(wm.search_string("含有赌博内容"), Some("赌博".to_string()));
    assert_eq!(wm.search("含有赌博内容").map(|p| (*p).clone()), Some("赌博".to_string()));
    assert!(wm.search("正常内容").is_none());
}

#[test]
fn space_handling_equivalence() {
    let patterns = strings(&["hello world"]);
    let ignore = WuManber::new_with_space_handling(patterns.clone(), SpaceHandling::IgnoreSpaces);
    assert_eq!(ignore.search_string("hello world"), Some("hello world".to_string()));
    assert_eq!(ignore.search_string("helloworld"), Some("hello world".to_string()));
    let strict = WuManber::new_with_space_handling(patterns, SpaceHandling::Strict);
    assert_eq!(strict.search_string("hello world"), Some("hello world".to_string()));
    assert_eq!(strict.search_string("helloworld"), None);
}

#[test]
fn block_size_never_exceeds_shortest_pattern() {
    let cases: Vec<(Vec<String>, usize)> = vec![
        (strings(&["a"]), 5),
        (strings(&["ab", "abcdef"]), 3),
        (strings(&["赌", "赌博机"]), 2),
        (strings(&["abcdefghijkl"]), 100),
        (strings(&["abc", "de"]), 0),
    ];
    for (patterns, requested) in cases {
        let wm = WuManber::new(patterns.clone(), requested);
        let stats = wm.stats();
        let shortest = patterns.iter().map(|p| p.chars().count()).min().unwrap();
        assert_eq!(stats.min_length, shortest);
        assert_eq!(stats.block_size, requested.min(shortest));
        assert!(stats.block_size <= stats.min_length);
    }
}

#[test]
fn derived_block_size_follows_the_shortest_pattern() {
    let expect = [(1usize, 1usize), (2, 2), (3, 2), (4, 3), (10, 3), (11, 4), (40, 4)];
    for (len, block) in expect {
        let wm = WuManber::new_chinese(vec!["x".repeat(len), "y".repeat(len + 3)]);
        let stats = wm.stats();
        assert_eq!(stats.min_length, len);
        assert_eq!(stats.block_size, block);
        assert_eq!(stats.pattern_count, 2);
    }
}

#[test]
fn empty_vocabulary_never_matches() {
    let wm = WuManber::new_chinese(Vec::new());
    assert_eq!(wm.search_string("anything"), None);
    assert!(wm.search_all_strings("anything").is_empty());
    assert!(wm.search_all("anything").is_empty());
    assert!(wm.find_matches("anything").is_empty());
    let stats = wm.stats();
    assert_eq!(stats.pattern_count, 0);
    assert_eq!(stats.min_length, 0);
    assert_eq!(stats.block_size, 2);
    assert_eq!(stats.shift_table_size, 0);
    assert_eq!(stats.hash_table_size, 0);
    assert_eq!(wm.space_handling(), SpaceHandling::Strict);
}

#[test]
fn vocabulary_of_blank_patterns_is_the_empty_matcher() {
    let wm = WuManber::new_with_space_handling(strings(&[" ", "\t\n"]), SpaceHandling::IgnoreSpaces);
    assert_eq!(wm.space_handling(), SpaceHandling::Strict);
    assert!(wm.patterns_strings().is_empty());
    assert!(wm.patterns().is_empty());
    assert_eq!(wm.search_string("a b"), None);
}

#[test]
fn text_shorter_than_every_pattern_has_no_match() {
    let wm = WuManber::new_chinese(strings(&["abcd", "efghij"]));
    assert_eq!(wm.search_string("abc"), None);
    assert_eq!(wm.search_string(""), None);
}

#[test]
fn duplicate_patterns_are_harmless() {
    let wm = WuManber::new_chinese(strings(&["赌博", "赌博", "色情"]));
    assert_eq!(wm.search_string("有赌博"), Some("赌博".to_string()));
    assert_eq!(wm.search_all_strings("有赌博"), strings(&["赌博", "赌博"]));
    assert_eq!(wm.stats().pattern_count, 3);
}

#[test]
fn tables_have_one_entry_per_distinct_block() {
    // blocks of size 2: "ab", "bc" from "abc"; "bc", "cd" from "bcd"
    let wm = WuManber::new(strings(&["abc", "bcd"]), 2);
    let stats = wm.stats();
    assert_eq!(stats.shift_table_size, 3);
    // trailing blocks: "bc" and "cd"
    assert_eq!(stats.hash_table_size, 2);
}

#[test]
fn parallel_build_gives_the_same_matcher() {
    let patterns = strings(&["赌博", "色情", "诈骗", "hello world", "abc"]);
    let seq = WuManber::new(patterns.clone(), 2);
    let par = WuManber::new_parallel(patterns.clone(), 2);
    let a = seq.stats();
    let b = par.stats();
    assert_eq!(a.pattern_count, b.pattern_count);
    assert_eq!(a.min_length, b.min_length);
    assert_eq!(a.block_size, b.block_size);
    assert_eq!(a.shift_table_size, b.shift_table_size);
    assert_eq!(a.hash_table_size, b.hash_table_size);
    for text in ["含有赌博内容", "say hello world", "xxabcxx", "nothing", "诈骗色情"] {
        assert_eq!(seq.search_string(text), par.search_string(text));
        assert_eq!(seq.find_matches(text), par.find_matches(text));
    }
    let par2 = WuManber::new_parallel_with_space_handling(patterns, 2, SpaceHandling::NormalizeSpaces);
    assert_eq!(par2.search_string("say hello   world"), Some("hello world".to_string()));
    assert_eq!(par2.space_handling(), SpaceHandling::NormalizeSpaces);
}

#[test]
fn find_matches_reports_byte_offsets_on_character_boundaries() {
    let wm = WuManber::new_chinese(strings(&["赌博", "博"]));
    // "含有" is 6 bytes, "赌博" runs from 6 to 12, "博" from 9 to 12
    assert_eq!(
        wm.find_matches("含有赌博"),
        vec![Match { start: 6, end: 12 }, Match { start: 9, end: 12 }]
    );
}

#[test]
fn find_matches_reports_overlapping_occurrences_in_order() {
    let wm = WuManber::new_chinese(strings(&["aa", "a"]));
    assert_eq!(
        wm.find_matches("aaa"),
        vec![
            Match { start: 0, end: 2 },
            Match { start: 0, end: 1 },
            Match { start: 1, end: 3 },
            Match { start: 1, end: 2 },
            Match { start: 2, end: 3 },
        ]
    );
}

#[test]
fn find_matches_mixes_one_to_four_byte_characters() {
    let wm = WuManber::new_chinese(strings(&["é", "😀", "z"]));
    // a(1) é(2) 赌(3) 😀(4) z(1)
    assert_eq!(
        wm.find_matches("aé赌😀z"),
        vec![Match { start: 1, end: 3 }, Match { start: 6, end: 10 }, Match { start: 10, end: 11 }]
    );
}

#[test]
fn replace_all_masks_character_for_character() {
    let wm = WuManber::new_chinese(strings(&["赌博", "bad"]));
    assert_eq!(wm.replace_all("赌博 is bad", '*'), "** is ***");
    assert_eq!(wm.replace_all("nothing", '*'), "nothing");
    assert_eq!(wm.replace_all("赌博 is bad", '*').chars().count(), "赌博 is bad".chars().count());
}

#[test]
fn remove_all_removes_every_occurrence() {
    let wm = WuManber::new_chinese(strings(&["赌博", "bad"]));
    assert_eq!(wm.remove_all("赌博 is bad, bad"), " is , ");
    assert_eq!(wm.remove_all("aabadbb"), "aabb");
}

#[test]
fn search_all_reports_in_vocabulary_order() {
    let wm = WuManber::new_chinese(strings(&["橙子", "苹果", "香蕉"]));
    assert_eq!(wm.search_all_strings("苹果和橙子"), strings(&["橙子", "苹果"]));
    let shared: Vec<String> = wm.search_all("苹果和橙子").iter().map(|p| (**p).clone()).collect();
    assert_eq!(shared, strings(&["橙子", "苹果"]));
    assert!(wm.search_all_strings("").is_empty());
}

#[test]
fn normalize_spaces_collapses_runs() {
    let wm = WuManber::new_with_space_handling(strings(&["a  b"]), SpaceHandling::NormalizeSpaces);
    assert_eq!(wm.patterns().iter().map(|p| (**p).clone()).collect::<Vec<_>>(), strings(&["a b"]));
    assert_eq!(wm.patterns_strings(), strings(&["a  b"]));
    assert_eq!(wm.search_string("xa \t\n bx"), Some("a  b".to_string()));
    assert_eq!(wm.search_string("xabx"), None);
    assert!(wm.contains_pattern("a b"));
    assert!(!wm.contains_pattern("a  b"));
}

#[test]
fn ignore_spaces_treats_unicode_whitespace_alike() {
    let wm = WuManber::new_with_space_handling(strings(&["a b"]), SpaceHandling::IgnoreSpaces);
    // U+3000 ideographic space and U+00A0 no-break space are whitespace
    assert_eq!(wm.search_string("a\u{3000}b"), Some("a b".to_string()));
    assert_eq!(wm.search_string("a\u{a0}b"), Some("a b".to_string()));
    // U+200B zero width space is not
    assert_eq!(wm.search_string("a\u{200b}b"), None);
}

#[test]
fn term_that_becomes_empty_never_matches() {
    let wm = WuManber::new_with_space_handling(strings(&[" ", "ab"]), SpaceHandling::IgnoreSpaces);
    assert_eq!(wm.search_string("x"), None);
    assert!(wm.search("x").is_none());
    assert!(wm.search_all_strings("x").is_empty());
    assert!(wm.search_all("x").is_empty());
    assert_eq!(wm.search_string("xa bx"), Some("ab".to_string()));
    assert_eq!(wm.search("xa bx").map(|p| (*p).clone()), Some("ab".to_string()));
    assert_eq!(wm.search_all_strings("xabx"), strings(&["ab"]));
    assert_eq!(wm.search_string(""), None);
}

#[test]
fn empty_term_is_never_reported_under_the_strict_policy() {
    let wm = WuManber::new_chinese(strings(&["", "ab"]));
    assert!(wm.search_all_strings("x").is_empty());
    assert!(wm.search_all("x").is_empty());
    assert_eq!(wm.search_string("x"), None);
    assert_eq!(wm.search_all_strings("xabx"), strings(&["ab"]));
    assert_eq!(wm.replace_all("xabx", '*'), "x**x");
    assert_eq!(wm.remove_all("xabx"), "xx");
    assert!(wm.find_matches("x").is_empty());
}

#[test]
fn search_returns_the_canonical_form_and_search_string_the_term() {
    let wm = WuManber::new_with_space_handling(strings(&["x y", "a  b"]), SpaceHandling::IgnoreSpaces);
    assert_eq!(wm.search("1 ab 2").map(|p| (*p).clone()), Some("ab".to_string()));
    assert_eq!(wm.search_string("1 ab 2"), Some("a  b".to_string()));
    let forms: Vec<String> = wm.search_all("ab xy").iter().map(|p| (**p).clone()).collect();
    assert_eq!(forms, strings(&["xy", "ab"]));
    assert_eq!(wm.search_all_strings("ab xy"), strings(&["x y", "a  b"]));
}

#[test]
fn scan_with_terms_of_different_lengths_skips_nothing() {
    // a shift taken from the longer term must not carry the scan past the shorter one
    let wm = WuManber::new(strings(&["abcdefgh", "xy"]), 2);
    assert_eq!(wm.search_string("abxy"), Some("xy".to_string()));
    assert_eq!(wm.search_string("xy"), Some("xy".to_string()));
    assert_eq!(wm.search_all_strings("abxy"), strings(&["xy"]));
    let wm = WuManber::new(strings(&["cd", "abxyz"]), 2);
    assert_eq!(wm.search("abcd").map(|p| (*p).clone()), Some("cd".to_string()));
    assert_eq!(wm.search_string("abxyz"), Some("abxyz".to_string()));
    assert_eq!(wm.search_string("abxy"), None);
}

#[test]
fn strict_search_reports_the_term_that_ends_first() {
    let wm = WuManber::new_chinese(strings(&["色情", "赌博", "诈骗"]));
    assert_eq!(wm.search_string("还有诈骗色情测试"), Some("诈骗".to_string()));
    // two terms end at the same place: the first of them in the vocabulary
    let wm = WuManber::new(strings(&["xbc", "bc", "abc"]), 2);
    assert_eq!(wm.search_string("1xbc"), Some("xbc".to_string()));
    assert_eq!(wm.search_string("1abc"), Some("bc".to_string()));
    // search agrees with containment for many texts and block sizes
    let terms = strings(&["ab", "bcd", "cdefg", "ga"]);
    for block in 0..4 {
        let wm = WuManber::new(terms.clone(), block);
        for text in ["", "a", "ab", "xbcd", "cdef", "cdefg", "xxga", "abcdefga", "gbcxa", "cdefbcga"] {
            let expected = terms.iter().any(|t| text.contains(t.as_str()));
            assert_eq!(wm.search_string(text).is_some(), expected);
            assert_eq!(!wm.search_all_strings(text).is_empty(), expected);
        }
    }
}

#[test]
fn block_size_zero_degenerates_to_probing_every_position() {
    let wm = WuManber::new(strings(&["a", "bc"]), 0);
    assert_eq!(wm.stats().block_size, 0);
    assert_eq!(wm.search_string("xbcx"), Some("bc".to_string()));
    assert_eq!(wm.search_string("b"), None);
}
