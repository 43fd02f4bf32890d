use sensitive_rs::{Filter, MatchAlgorithm, MultiPatternEngine};

#[test]
fn test_integration() {
    let mut filter = Filter::new();
    filter.add_words(&["赌博", "色情"]);

    // Exact match
    assert_eq!(filter.find_in("含有赌博"), (true, "赌博".to_string()));

    // Pinyin variant
    assert_eq!(filter.find_in("含有 dubo"), (true, "赌博".to_string()));

    // Replacement
    assert_eq!(filter.replace("赌博 色情", '*'), "** **");

    // Filter
    assert_eq!(filter.filter("赌博内容"), "内容");
}

#[test]
fn test_noise_handling() {
    let mut filter = Filter::new();
    filter.add_word("赌博");

    // spaces stay
    assert_eq!(filter.remove_noise("赌 博"), "赌 博");

    // symbols go
    assert_eq!(filter.remove_noise("赌@#$博"), "赌博");
}

#[test]
fn test_replace_vs_filter() {
    let mut filter = Filter::new();
    filter.add_words(&["赌博", "色情"]);

    let text = "这里有赌博和色情内容";

    assert_eq!(filter.replace(text, '*'), "这里有**和**内容");

    assert_eq!(filter.filter(text), "这里有和内容");
}

#[test]
fn test_variant_detection() {
    let mut filter = Filter::new();
    filter.add_word("测试");

    assert_eq!(filter.find_in("ceshi"), (true, "测试".to_string()));
}

#[test]
fn test_algorithm_switch_one() {
    let mut small = Filter::new();
    small.add_words(&["a", "b", "c"]);
    assert!(matches!(small.current_algorithm(), MatchAlgorithm::WuManber));

    let words: Vec<_> = (0..150).map(|i| format!("word{i}")).collect();
    let mut medium = Filter::new();
    medium.add_words(&words.iter().map(|s| s.as_str()).collect::<Vec<_>>());
    println!("Medium current_algorithm: {:?}", medium.current_algorithm());
    assert!(matches!(medium.current_algorithm(), MatchAlgorithm::AhoCorasick));
}

#[test]
fn test_io_operations() {
    let mut filter = Filter::new();
    filter.load("word1\nword2\nword3");

    assert_eq!(filter.find_in("word2"), (true, "word2".to_string()));
}

#[test]
fn test_algorithm_recommendation() {
    assert_eq!(MultiPatternEngine::recommend_algorithm(50), MatchAlgorithm::WuManber);
    assert_eq!(MultiPatternEngine::recommend_algorithm(150), MatchAlgorithm::AhoCorasick);
    assert_eq!(MultiPatternEngine::recommend_algorithm(15000), MatchAlgorithm::Regex);
}

#[test]
fn test_algorithm_switch() {
    let mut small = Filter::new();
    small.add_words(&["a", "b", "c"]);
    println!("Small (3 words): {:?}", small.current_algorithm());
    assert!(matches!(small.current_algorithm(), MatchAlgorithm::WuManber));

    let words: Vec<_> = (0..150).map(|i| format!("word{i}")).collect();
    let word_refs: Vec<&str> = words.iter().map(|s| s.as_str()).collect();

    let mut medium = Filter::new();
    medium.add_words(&word_refs);

    println!("Medium (150 words): {:?}", medium.current_algorithm());

    let recommended = MultiPatternEngine::recommend_algorithm(150);
    println!("Recommended algorithm for 150 words: {recommended:?}");

    assert!(matches!(medium.current_algorithm(), MatchAlgorithm::AhoCorasick));
}

#[test]
fn strict_mode_correctness() {
    let mut filter = Filter::new();
    filter.add_words(&["赌博", "色情", "诈骗"]);
    assert_eq!(filter.find_in("正常内容"), (false, String::new()));
    assert_eq!(filter.find_in("含有赌博内容"), (true, "赌博".to_string()));
    assert_eq!(filter.validate("含有赌博内容"), (true, "赌博".to_string()));
    assert_eq!(filter.validate("正常内容"), (false, String::new()));
}

#[test]
fn evasion_by_pinyin_is_reported() {
    let mut filter = Filter::new();
    filter.add_word("赌博");
    assert_eq!(filter.find_in("含有 dubo 内容"), (true, "赌博".to_string()));
}

#[test]
fn evasion_by_similar_shapes_is_reported() {
    let mut filter = Filter::new();
    filter.add_word("赌博");
    // 睹 looks like 赌, 搏 looks like 博
    assert_eq!(filter.find_in("含有睹搏内容"), (true, "赌博".to_string()));
    assert_eq!(filter.find_in("含有睹内容"), (false, String::new()));
}

#[test]
fn find_all_merges_sorts_and_deduplicates() {
    let mut filter = Filter::new();
    filter.add_words(&["色情", "赌博"]);
    let found = filter.find_all("赌博、色情和赌博");
    let mut expected = vec!["色情".to_string(), "赌博".to_string()];
    expected.sort();
    assert_eq!(found, expected);
    assert!(filter.find_all("正常内容").is_empty());
}

#[test]
fn find_all_hands_out_the_cached_result_after_the_vocabulary_changed() {
    let mut filter = Filter::new();
    filter.add_word("赌博");
    assert_eq!(filter.find_all("赌博和色情"), vec!["赌博".to_string()]);
    filter.add_word("色情");
    // the result for this text is cached
    assert_eq!(filter.find_all("赌博和色情"), vec!["赌博".to_string()]);
    // noise is stripped before the cache is asked
    assert_eq!(filter.find_all("赌博!和色情"), vec!["赌博".to_string()]);
    filter.clear_cache();
    let mut expected = vec!["色情".to_string(), "赌博".to_string()];
    expected.sort();
    assert_eq!(filter.find_all("赌博和色情"), expected);
}

#[test]
fn parallel_and_sequential_scans_agree_on_padded_text() {
    let mut filter = Filter::new();
    filter.add_words(&["赌博", "色情", "诈骗"]);
    let short = "含有赌博和色情的内容";
    let mut padded = String::from(short);
    while padded.len() <= 1000 {
        padded.push_str(" 这是一些没有问题的填充文字");
    }
    assert!(padded.len() > 1000);
    let from_short = filter.find_all(short);
    let from_padded = filter.find_all(&padded);
    assert_eq!(from_short, from_padded);
    let mut expected = vec!["色情".to_string(), "赌博".to_string()];
    expected.sort();
    assert_eq!(from_short, expected);
}

#[test]
fn chunked_scan_does_not_see_across_chunk_boundaries() {
    let mut filter = Filter::new();
    filter.add_word("a b");
    // chunks of 100 characters: the term straddles the first boundary, and
    // its space keeps it out of every whitespace-delimited segment
    let text = format!("{}a b{}", "x".repeat(99), "y".repeat(200));
    assert!(filter.find_all_chunked(&text, 8).is_empty());
    let inside = format!("{}a b{}", "x".repeat(97), "y".repeat(200));
    assert_eq!(filter.find_all_chunked(&inside, 8), vec!["a b".to_string()]);
}

#[test]
fn chunk_size_is_the_share_of_a_worker_but_at_least_one_hundred() {
    let mut filter = Filter::new();
    filter.add_word("a b");
    // 400 bytes and 2 workers: chunks of 200 characters
    let text = format!("{}a b{}", "x".repeat(199), "y".repeat(198));
    assert_eq!(text.len(), 400);
    assert!(filter.find_all_chunked(&text, 2).is_empty());
    // one worker: one chunk
    assert_eq!(filter.find_all_chunked(&text, 1), vec!["a b".to_string()]);
    // 400 workers: chunks of 100 characters
    let at_hundred = format!("{}a b{}", "x".repeat(99), "y".repeat(298));
    assert!(filter.find_all_chunked(&at_hundred, 400).is_empty());
    assert_eq!(filter.find_all_chunked(&at_hundred, 2), vec!["a b".to_string()]);
}

#[test]
fn find_all_batch_answers_each_text() {
    let mut filter = Filter::new();
    filter.add_words(&["赌博", "色情"]);
    let found = filter.find_all_batch(&["有赌博", "正常", "色情和赌博"]);
    assert_eq!(found.len(), 3);
    assert_eq!(found[0], vec!["赌博".to_string()]);
    assert!(found[1].is_empty());
    let mut both = vec!["色情".to_string(), "赌博".to_string()];
    both.sort();
    assert_eq!(found[2], both);
}

#[test]
fn find_all_streaming_reports_each_term_once() {
    let mut filter = Filter::new();
    filter.add_words(&["赌博", "色情"]);
    let lines = vec!["有赌博".to_string(), "又有赌博".to_string(), "色情".to_string()];
    let mut both = vec!["色情".to_string(), "赌博".to_string()];
    both.sort();
    assert_eq!(filter.find_all_streaming(&lines), both);
}

#[test]
fn layered_matching_lets_longer_terms_claim_their_text() {
    let mut filter = Filter::new();
    filter.add_words(&["bad", "badge"]);
    assert_eq!(filter.find_all_layered("a badge"), vec!["badge".to_string()]);
    let mut both = vec!["bad".to_string(), "badge".to_string()];
    both.sort();
    assert_eq!(filter.find_all_layered("a badge is bad"), both);
}

#[test]
fn replace_works_from_the_longest_term_down() {
    let mut filter = Filter::new();
    filter.add_words(&["bad", "badge"]);
    assert_eq!(filter.replace("a badge", '*'), "a *****");
    assert_eq!(filter.filter("a badge, bad"), "a  ");
}

#[test]
fn replace_keeps_the_number_of_characters() {
    let mut filter = Filter::new();
    filter.add_words(&["赌博", "色情", "bad"]);
    for text in ["这里有赌博和色情内容", "bad bad 赌博", "nothing here", ""] {
        let clean = filter.remove_noise(text);
        assert_eq!(filter.replace(text, '*').chars().count(), clean.chars().count());
    }
}

#[test]
fn filter_twice_is_filter_once() {
    let mut filter = Filter::new();
    filter.add_words(&["赌博", "色情", "bad"]);
    for text in ["这里有赌博和色情内容", "bad bad 赌博!", "nothing here", ""] {
        let once = filter.filter(text);
        assert_eq!(filter.filter(&once), once);
    }
}

#[test]
fn del_word_removes_every_copy() {
    let mut filter = Filter::new();
    filter.add_words(&["赌博", "色情", "赌博"]);
    filter.del_word("赌博");
    assert_eq!(filter.find_in("色情"), (true, "色情".to_string()));
    assert_eq!(filter.filter("赌博色情"), "赌博");
    filter.del_words(&["色情", "没有"]);
    assert_eq!(filter.filter("赌博色情"), "赌博色情");
}

#[test]
fn load_takes_one_term_a_line_and_skips_empty_lines() {
    let mut filter = Filter::new();
    filter.load("word1\r\nword2\n\n\nword3\n");
    assert_eq!(filter.find_in("word1"), (true, "word1".to_string()));
    assert_eq!(filter.find_in("word3"), (true, "word3".to_string()));
    assert_eq!(filter.find_in("nothing at all"), (false, String::new()));
    assert_eq!(filter.filter("word1 word2 word3"), "  ");
}

#[test]
fn noise_pattern_can_be_replaced() {
    let mut filter = Filter::new();
    filter.add_word("ab");
    assert_eq!(filter.get_noise_pattern().map(|re| re.as_str().to_string()), Some("[^\\w\\s\\u4e00-\\u9fff]".to_string()));
    assert_eq!(filter.remove_noise("a-b"), "ab");
    assert!(filter.try_update_noise_pattern("[0-9]"));
    assert_eq!(filter.remove_noise("a-b1"), "a-b");
    assert_eq!(filter.get_noise_pattern().map(|re| re.as_str().to_string()), Some("[0-9]".to_string()));
    assert!(!filter.try_update_noise_pattern("[0-9"));
    assert_eq!(filter.remove_noise("a-b1"), "a-b");
    filter.update_noise_pattern("x+");
    assert_eq!(filter.remove_noise("axxxb"), "ab");
}

#[test]
fn with_algorithm_starts_with_that_back_end() {
    assert_eq!(Filter::with_algorithm(MatchAlgorithm::Regex).current_algorithm(), MatchAlgorithm::Regex);
    assert_eq!(Filter::with_algorithm(MatchAlgorithm::AhoCorasick).current_algorithm(), MatchAlgorithm::AhoCorasick);
    assert_eq!(Filter::new().current_algorithm(), MatchAlgorithm::WuManber);
    assert_eq!(Filter::default().current_algorithm(), MatchAlgorithm::WuManber);
    let mut filter = Filter::with_algorithm(MatchAlgorithm::Regex);
    filter.add_word("a");
    // a change of the vocabulary selects the back end anew
    assert_eq!(filter.current_algorithm(), MatchAlgorithm::WuManber);
}

#[test]
fn cache_drops_the_least_recently_used_result_when_full() {
    let mut filter = Filter::new();
    filter.add_word("a");
    assert_eq!(filter.find_all("a first"), vec!["a".to_string()]);
    assert_eq!(filter.find_all("a second"), vec!["a".to_string()]);
    filter.del_word("a");
    // both results are cached
    assert_eq!(filter.find_all("a first"), vec!["a".to_string()]);
    assert_eq!(filter.find_all("a second"), vec!["a".to_string()]);
    // 998 more texts fill the cache of 1000
    for i in 0..998 {
        assert!(filter.find_all(&format!("text {i}")).is_empty());
    }
    // a lookup marks the first text as used, so the second text is the oldest
    assert_eq!(filter.find_all("a first"), vec!["a".to_string()]);
    assert!(filter.find_all("one more").is_empty());
    assert_eq!(filter.find_all("a first"), vec!["a".to_string()]);
    assert!(filter.find_all("a second").is_empty());
}

#[test]
fn functions_on_stripped_text_do_not_strip_again() {
    let mut filter = Filter::new();
    filter.add_words(&["a-b", "赌博"]);
    // the stripped form of the text never holds the hyphen
    assert_eq!(filter.find_in("xa-bx"), (false, String::new()));
    assert_eq!(filter.find_in_clean("xa-bx"), (true, "a-b".to_string()));
    assert_eq!(filter.mask_terms("xa-bx", '*'), "x***x");
    assert_eq!(filter.replace("xa-bx", '*'), "xabx");
    assert_eq!(filter.remove_terms("xa-bx 赌博"), "xx ");
    assert_eq!(filter.find_all_sequential("xa-bx"), vec!["a-b".to_string()]);
    assert_eq!(filter.find_layered_clean("xa-bx"), vec!["a-b".to_string()]);
    assert!(filter.find_all_layered("xa-bx").is_empty());
}

#[test]
fn term_without_characters_is_never_reported() {
    let mut filter = Filter::new();
    filter.add_words(&["", "ab"]);
    assert_eq!(filter.find_in("xyz"), (false, String::new()));
    assert!(filter.find_all("xyz").is_empty());
    assert!(filter.find_all_layered("xyz").is_empty());
    assert_eq!(filter.find_in("xabz"), (true, "ab".to_string()));
    assert_eq!(filter.find_all("xabz"), vec!["ab".to_string()]);
    assert_eq!(filter.find_all_layered("xabz"), vec!["ab".to_string()]);
    assert_eq!(filter.replace("xabz", '*'), "x**z");
    assert_eq!(filter.filter("xabz"), "xz");
}

#[test]
fn exact_match_is_preferred_to_a_disguised_one() {
    let mut filter = Filter::new();
    filter.add_words(&["赌博", "cd", "abxyz"]);
    // "cd" occurs; "赌博" is there in disguise only
    assert_eq!(filter.find_in("abcd dubo"), (true, "cd".to_string()));
    assert_eq!(filter.find_in("ab dubo"), (true, "赌博".to_string()));
}

#[test]
fn replace_leaves_what_lies_outside_the_terms_in_place() {
    let mut filter = Filter::new();
    filter.add_words(&["赌博", "bad"]);
    for text in ["这里有赌博和bad内容", "bad", "no term", ""] {
        let clean = filter.remove_noise(text);
        let masked = filter.replace(text, '*');
        assert_eq!(masked.chars().count(), clean.chars().count());
        for (a, b) in masked.chars().zip(clean.chars()) {
            assert!(a == b || a == '*');
        }
    }
}
