use sensitive_rs::{MatchAlgorithm, MultiPatternEngine};

fn strings(items: &[&str]) -> Vec<String> {
    items.iter().map(|s| s.to_string()).collect()
}

#[test]
fn selection_thresholds() {
    assert_eq!(MultiPatternEngine::recommend_algorithm(0), MatchAlgorithm::WuManber);
    assert_eq!(MultiPatternEngine::recommend_algorithm(100), MatchAlgorithm::WuManber);
    assert_eq!(MultiPatternEngine::recommend_algorithm(101), MatchAlgorithm::AhoCorasick);
    assert_eq!(MultiPatternEngine::recommend_algorithm(10_000), MatchAlgorithm::AhoCorasick);
    assert_eq!(MultiPatternEngine::recommend_algorithm(10_001), MatchAlgorithm::Regex);
}

#[test]
fn vocabulary_size_selects_the_back_end() {
    let small: Vec<String> = (0..50).map(|i| format!("word{i}")).collect();
    assert_eq!(MultiPatternEngine::new(None, &small).current_algorithm(), MatchAlgorithm::WuManber);
    let medium: Vec<String> = (0..150).map(|i| format!("word{i}")).collect();
    assert_eq!(MultiPatternEngine::new(None, &medium).current_algorithm(), MatchAlgorithm::AhoCorasick);
    let large: Vec<String> = (0..15_000).map(|i| format!("word{i}")).collect();
    assert_eq!(MultiPatternEngine::new(None, &large).current_algorithm(), MatchAlgorithm::Regex);
}

#[test]
fn explicit_choice_overrides_the_size() {
    let patterns = strings(&["赌博", "色情"]);
    for algorithm in [MatchAlgorithm::AhoCorasick, MatchAlgorithm::WuManber, MatchAlgorithm::Regex] {
        let engine = MultiPatternEngine::new(Some(algorithm), &patterns);
        assert_eq!(engine.current_algorithm(), algorithm);
        assert_eq!(engine.get_patterns(), &patterns[..]);
        assert_eq!(engine.find_first("含有赌博内容"), Some("赌博".to_string()));
        assert_eq!(engine.find_first("正常内容"), None);
        assert!(engine.contains_any("有色情"));
        assert!(!engine.contains_any("没有"));
    }
}

#[test]
fn rebuild_selects_anew_and_rebuild_with_algorithm_forces() {
    let patterns = strings(&["a", "b"]);
    let mut engine = MultiPatternEngine::new(Some(MatchAlgorithm::Regex), &patterns);
    assert_eq!(engine.current_algorithm(), MatchAlgorithm::Regex);
    engine.rebuild(&patterns);
    assert_eq!(engine.current_algorithm(), MatchAlgorithm::WuManber);
    engine.rebuild_with_algorithm(&patterns, MatchAlgorithm::AhoCorasick);
    assert_eq!(engine.current_algorithm(), MatchAlgorithm::AhoCorasick);
    assert_eq!(engine.find_first("xbx"), Some("b".to_string()));
}

#[test]
fn empty_vocabulary_finds_nothing_and_changes_nothing() {
    for algorithm in [MatchAlgorithm::AhoCorasick, MatchAlgorithm::WuManber, MatchAlgorithm::Regex] {
        let engine = MultiPatternEngine::new(Some(algorithm), &[]);
        assert_eq!(engine.current_algorithm(), algorithm);
        assert_eq!(engine.find_first("abc"), None);
        assert!(engine.find_all("abc").is_empty());
        assert!(engine.find_matches_with_positions("abc").is_empty());
        assert_eq!(engine.replace_all("abc", "*"), "abc");
    }
}

#[test]
fn automaton_reports_leftmost_longest_matches() {
    let engine = MultiPatternEngine::new(Some(MatchAlgorithm::AhoCorasick), &strings(&["bad", "badge", "ge"]));
    assert_eq!(engine.find_first("a badge"), Some("badge".to_string()));
    assert_eq!(engine.find_all("badge bad ge"), strings(&["badge", "bad", "ge"]));
    let found = engine.find_matches_with_positions("有badge");
    assert_eq!(found.len(), 1);
    assert_eq!(found[0].pattern, "badge");
    assert_eq!((found[0].start, found[0].end), (3, 8));
}

#[test]
fn automaton_replaces_character_for_character() {
    let engine = MultiPatternEngine::new(Some(MatchAlgorithm::AhoCorasick), &strings(&["bad", "badge", "ge"]));
    // character for character, with the first character of the replacement
    assert_eq!(engine.replace_all("badge bad ge", "#"), "##### ### ##");
    assert_eq!(engine.replace_all("badge bad ge", "#!"), "##### ### ##");
    assert_eq!(engine.replace_all("有badge", "*"), "有*****");
    assert_eq!(engine.replace_all("badge bad ge", ""), "  ");
    let words: Vec<String> = (0..150).map(|i| format!("word{i}")).collect();
    let engine = MultiPatternEngine::new(None, &words);
    assert_eq!(engine.current_algorithm(), MatchAlgorithm::AhoCorasick);
    assert_eq!(engine.replace_all("xword7y", "*"), "x*****y");
}

#[test]
fn regular_expression_escapes_the_terms() {
    let engine = MultiPatternEngine::new(Some(MatchAlgorithm::Regex), &strings(&["a.c", "1+1", "(x)|y"]));
    assert_eq!(engine.current_algorithm(), MatchAlgorithm::Regex);
    assert_eq!(engine.find_first("abc"), None);
    assert_eq!(engine.find_first("xa.cx"), Some("a.c".to_string()));
    assert_eq!(engine.find_all("1+1 = 11, (x)|y"), strings(&["1+1", "(x)|y"]));
    assert_eq!(engine.replace_all("a.c abc", "-"), "--- abc");
    assert_eq!(engine.replace_all("赌a.c abc", "*"), "赌*** abc");
    assert_eq!(engine.replace_all("a.c abc", ""), " abc");
    let found = engine.find_matches_with_positions("赌a.c");
    assert_eq!(found.len(), 1);
    assert_eq!(found[0].pattern, "a.c");
    assert_eq!((found[0].start, found[0].end), (3, 6));
}

#[test]
fn block_hash_back_end_masks_with_the_first_character_of_the_replacement() {
    let engine = MultiPatternEngine::new(Some(MatchAlgorithm::WuManber), &strings(&["赌博", "bad"]));
    assert_eq!(engine.replace_all("赌博 is bad", "*#"), "** is ***");
    assert_eq!(engine.replace_all("赌博 is bad", ""), " is ");
    assert_eq!(engine.find_all("bad 赌博"), strings(&["赌博", "bad"]));
    let found = engine.find_matches_with_positions("bad 赌博");
    assert_eq!(found.len(), 2);
    assert_eq!((found[0].pattern.as_str(), found[0].start, found[0].end), ("bad", 0, 3));
    assert_eq!((found[1].pattern.as_str(), found[1].start, found[1].end), ("赌博", 4, 10));
}

#[test]
fn vocabulary_of_empty_terms_builds_the_empty_matcher() {
    let engine = MultiPatternEngine::new(Some(MatchAlgorithm::WuManber), &strings(&["", ""]));
    assert_eq!(engine.current_algorithm(), MatchAlgorithm::WuManber);
    assert_eq!(engine.find_first("abc"), None);
    assert!(engine.find_all("abc").is_empty());
    assert_eq!(engine.replace_all("abc", "*"), "abc");
}

#[test]
fn back_end_that_cannot_be_built_gives_way_to_the_block_hash_matcher() {
    // the alternation of these terms is beyond the size a regular expression may have
    let patterns: Vec<String> = (0..300).map(|i| format!("{:a>width$}", i, width = 2000)).collect();
    let engine = MultiPatternEngine::new(Some(MatchAlgorithm::Regex), &patterns);
    assert_eq!(engine.current_algorithm(), MatchAlgorithm::WuManber);
    assert_eq!(engine.get_patterns().len(), 300);
    let text = format!("xx{}yy", patterns[17]);
    assert_eq!(engine.find_first(&text), Some(patterns[17].clone()));
    assert_eq!(engine.find_first("nothing"), None);
}

#[test]
fn replace_all_keeps_the_number_of_characters_on_every_back_end() {
    let patterns = strings(&["赌博", "bad", "badge"]);
    for algorithm in [MatchAlgorithm::AhoCorasick, MatchAlgorithm::WuManber, MatchAlgorithm::Regex] {
        let engine = MultiPatternEngine::new(Some(algorithm), &patterns);
        for text in ["a badge 赌博", "bad bad", "nothing", "", "赌博赌"] {
            let masked = engine.replace_all(text, "*");
            assert_eq!(masked.chars().count(), text.chars().count());
            for (a, b) in masked.chars().zip(text.chars()) {
                assert!(a == b || a == '*');
            }
        }
    }
    let engine = MultiPatternEngine::new(Some(MatchAlgorithm::AhoCorasick), &patterns);
    assert_eq!(engine.replace_all("a badge 赌博", "*"), "a ***** **");
}

#[test]
fn containment_test_agrees_with_the_list_of_matches() {
    let engine = MultiPatternEngine::new(None, &strings(&["cd", "abxyz"]));
    assert_eq!(engine.current_algorithm(), MatchAlgorithm::WuManber);
    assert!(engine.contains_any("abcd"));
    assert_eq!(engine.find_first("abcd"), Some("cd".to_string()));
    assert_eq!(engine.find_all("abcd"), strings(&["cd"]));
    for text in ["", "ab", "abxy", "abxyz", "xcdx", "c d"] {
        assert_eq!(engine.contains_any(text), !engine.find_all(text).is_empty());
        assert_eq!(engine.contains_any(text), engine.find_first(text).is_some());
    }
}

#[test]
fn empty_term_is_never_among_the_matches_of_the_block_hash_back_end() {
    let engine = MultiPatternEngine::new(Some(MatchAlgorithm::WuManber), &strings(&["", "ab"]));
    assert!(engine.find_all("x").is_empty());
    assert!(!engine.contains_any("x"));
    assert_eq!(engine.find_all("xab"), strings(&["ab"]));
}

#[test]
fn empty_term_never_matches_on_any_back_end() {
    let patterns = strings(&["", "ab"]);
    for algorithm in [MatchAlgorithm::AhoCorasick, MatchAlgorithm::WuManber, MatchAlgorithm::Regex] {
        let engine = MultiPatternEngine::new(Some(algorithm), &patterns);
        assert_eq!(engine.current_algorithm(), algorithm);
        assert_eq!(engine.get_patterns().len(), 2);
        assert_eq!(engine.find_first("x"), None);
        assert!(engine.find_all("x").is_empty());
        assert!(engine.find_matches_with_positions("x").is_empty());
        assert_eq!(engine.replace_all("x", "*"), "x");
        assert_eq!(engine.find_first("xab"), Some("ab".to_string()));
        assert_eq!(engine.find_all("xab"), strings(&["ab"]));
        assert_eq!(engine.replace_all("xab", "*"), "x**");
    }
    // a vocabulary without usable terms builds nothing and keeps the request
    let engine = MultiPatternEngine::new(Some(MatchAlgorithm::Regex), &strings(&["", ""]));
    assert_eq!(engine.current_algorithm(), MatchAlgorithm::Regex);
    assert_eq!(engine.find_first("x"), None);
    assert_eq!(engine.replace_all("x", "*"), "x");
}
