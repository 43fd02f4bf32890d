use sensitive_rs::VariantDetector;

#[test]
fn detects_pinyin_spelling_of_learnt_words() {
    let mut detector = VariantDetector::new();
    detector.add_word("赌博");
    assert_eq!(detector.detect("含有 dubo 内容", &["赌博"]), vec!["赌博"]);
    assert_eq!(detector.detect("含有 dub 内容", &["赌博"]), Vec::<&str>::new());
}

#[test]
fn unlearnt_words_are_compared_literally() {
    let detector = VariantDetector::new();
    // the detector has not learnt the characters of the word
    assert_eq!(detector.detect("dubo", &["赌博"]), Vec::<&str>::new());
    // the text is rendered phonetically, the word is not
    assert_eq!(detector.detect("赌博", &["dubo"]), vec!["dubo"]);
}

#[test]
fn detects_similar_shapes_anywhere_in_the_text() {
    let detector = VariantDetector::default();
    assert_eq!(detector.detect("睹搏", &["赌博"]), vec!["赌博"]);
    assert_eq!(detector.detect("含有堵傅的内容", &["赌博"]), vec!["赌博"]);
    assert_eq!(detector.detect("涩请", &["色情", "赌博"]), vec!["色情"]);
    assert_eq!(detector.detect("右", &["有"]), vec!["有"]);
    // the similarity is not symmetric: 赌 is not listed under 睹
    assert_eq!(detector.detect("赌", &["睹"]), Vec::<&str>::new());
    assert_eq!(detector.detect("睹", &["赌博"]), Vec::<&str>::new());
}

#[test]
fn result_is_sorted_and_without_duplicates() {
    let mut detector = VariantDetector::new();
    detector.add_word("赌博");
    detector.add_word("色情");
    let words = ["赌博", "色情", "赌博", "没有"];
    let found = detector.detect("seqing he dubo", &words);
    let mut expected = vec!["色情", "赌博"];
    expected.sort();
    assert_eq!(found, expected);
}

#[test]
fn characters_without_pinyin_stand_for_themselves() {
    let mut detector = VariantDetector::new();
    detector.add_word("a赌");
    assert_eq!(detector.detect("xadu", &["a赌"]), vec!["a赌"]);
    assert_eq!(detector.detect("x du", &["a赌"]), Vec::<&str>::new());
}

#[test]
fn word_without_characters_is_never_detected() {
    let mut detector = VariantDetector::new();
    detector.add_word("");
    assert_eq!(detector.detect("anything", &["", "赌博"]), Vec::<&str>::new());
    assert_eq!(detector.detect("", &[""]), Vec::<&str>::new());
}
