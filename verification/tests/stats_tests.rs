use sensitive_rs::estimate::{sat_add, sat_mul};
use sensitive_rs::{MatchAlgorithm, MultiPatternEngine, WuManber};

fn strings(items: &[&str]) -> Vec<String> {
    items.iter().map(|s| s.to_string()).collect()
}

#[test]
fn saturating_arithmetic_caps_at_the_largest_value() {
    assert_eq!(sat_add(2, 3), 5);
    assert_eq!(sat_add(usize::MAX, 1), usize::MAX);
    assert_eq!(sat_add(usize::MAX - 1, 1), usize::MAX);
    assert_eq!(sat_mul(6, 7), 42);
    assert_eq!(sat_mul(0, usize::MAX), 0);
    assert_eq!(sat_mul(usize::MAX, 0), 0);
    assert_eq!(sat_mul(usize::MAX, 2), usize::MAX);
    assert_eq!(sat_mul(usize::MAX / 2, 2), usize::MAX - 1);
}

#[test]
fn memory_estimate_follows_the_formula() {
    // blocks "ab", "bc", "cd": three shift entries; tails "bc", "cd": two suffix entries
    let wm = WuManber::new(strings(&["abc", "bcd"]), 2);
    let stats = wm.memory_stats_with(8, 8, 8, 40);
    assert_eq!(stats.total_patterns, 2);
    assert_eq!(stats.patterns_memory, 2 * 8 + 6);
    assert_eq!(stats.shift_table_memory, 3 * (8 + 8));
    assert_eq!(stats.hash_table_memory, 2 * (8 + 40) + 2 * 8);
    assert_eq!(stats.total_memory, 22 + 48 + 112 + 2 * 8);
}

#[test]
fn memory_estimate_counts_bytes_and_distinct_patterns() {
    let wm = WuManber::new(strings(&["赌博", "赌博"]), 2);
    let stats = wm.memory_stats_with(8, 8, 8, 40);
    assert_eq!(stats.total_patterns, 2);
    assert_eq!(stats.patterns_memory, 2 * 8 + 12);
    assert_eq!(stats.shift_table_memory, 16);
    assert_eq!(stats.hash_table_memory, (8 + 40) + 2 * 8);
    // one distinct pattern
    assert_eq!(stats.total_memory, 28 + 16 + 64 + 8);
}

#[test]
fn memory_estimate_is_capped() {
    let wm = WuManber::new(strings(&["abc"]), 2);
    let stats = wm.memory_stats_with(usize::MAX, 8, 8, 40);
    assert_eq!(stats.patterns_memory, usize::MAX);
    assert_eq!(stats.total_memory, usize::MAX);
    assert_eq!(stats.shift_table_memory, 2 * 16);
}

#[test]
fn memory_stats_uses_the_sizes_of_the_machine() {
    let wm = WuManber::new(strings(&["abc", "bcd"]), 2);
    let expected = wm.memory_stats_with(
        std::mem::size_of::<std::sync::Arc<String>>(),
        std::mem::size_of::<u64>(),
        std::mem::size_of::<usize>(),
        std::mem::size_of::<smallvec::SmallVec<[usize; 4]>>(),
    );
    let stats = wm.memory_stats();
    assert_eq!(stats.total_patterns, expected.total_patterns);
    assert_eq!(stats.patterns_memory, expected.patterns_memory);
    assert_eq!(stats.shift_table_memory, expected.shift_table_memory);
    assert_eq!(stats.hash_table_memory, expected.hash_table_memory);
    assert_eq!(stats.total_memory, expected.total_memory);
    assert!(stats.hash_table_memory > 2 * 8);
}

#[test]
fn empty_matcher_holds_nothing() {
    let wm = WuManber::new_chinese(Vec::new());
    let stats = wm.memory_stats();
    assert_eq!(stats.total_patterns, 0);
    assert_eq!(stats.total_memory, 0);
}

#[test]
fn engine_stats_report_back_end_size_and_memory() {
    let patterns = strings(&["abc", "bcd"]);
    let engine = MultiPatternEngine::new(Some(MatchAlgorithm::AhoCorasick), &patterns);
    let stats = engine.stats();
    assert_eq!(stats.algorithm, MatchAlgorithm::AhoCorasick);
    assert_eq!(stats.pattern_count, 2);
    assert_eq!(stats.memory_usage, 3 * 6);
    assert_eq!(engine.estimate_memory_usage(8, 8, 8, 40), 18);

    let engine = MultiPatternEngine::new(Some(MatchAlgorithm::Regex), &patterns);
    assert_eq!(engine.stats().memory_usage, 18);

    let engine = MultiPatternEngine::new(None, &patterns);
    assert_eq!(engine.stats().algorithm, MatchAlgorithm::WuManber);
    // the vocabulary's bytes and the estimate of the matcher built with the derived block size 2
    assert_eq!(engine.estimate_memory_usage(8, 8, 8, 40), 6 + 198);

    let engine = MultiPatternEngine::default();
    assert_eq!(engine.stats().algorithm, MatchAlgorithm::AhoCorasick);
    assert_eq!(engine.stats().pattern_count, 0);
    assert_eq!(engine.stats().memory_usage, 0);
}
