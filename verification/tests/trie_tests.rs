use sensitive_rs::Trie;

#[test]
fn test_add_and_find() {
    let mut filter = Trie::new();
    filter.add_word("bad");
    filter.add_word("worse");

    assert_eq!(filter.find_in("This is bad."), Some("bad".to_string()));
    assert_eq!(filter.find_in("This is worse."), Some("worse".to_string()));
    assert_eq!(filter.find_in("This is good."), None);
}

#[test]
fn test_replace() {
    let mut filter = Trie::new();
    filter.add_word("bad");
    filter.add_word("worse");

    assert_eq!(filter.replace("This is bad and worse.", '*'), "This is *** and *****.");
}

#[test]
fn test_filter() {
    let mut filter = Trie::new();
    filter.add_word("bad");
    filter.add_word("worse");

    assert_eq!(filter.filter("This is bad and worse."), "This is  and .");
}

#[test]
fn test_validate() {
    let mut filter = Trie::new();
    filter.add_word("bad");
    filter.add_word("worse");

    assert_eq!(filter.validate("This is bad."), Some("bad".to_string()));
    assert_eq!(filter.validate("This is good."), None);
}

#[test]
fn test_find_all() {
    let mut filter = Trie::new();
    filter.add_word("bad");
    filter.add_word("worse");

    assert_eq!(filter.find_all("This is bad and worse."), vec!["bad", "worse"]);
}

#[test]
fn test_del_word() {
    let mut filter = Trie::new();
    filter.add_word("bad");
    filter.add_word("badge");
    filter.add_word("badger");
    assert_eq!(filter.find_in("This is bad."), Some("bad".to_string()));
    assert_eq!(filter.find_in("This is a badge."), Some("badge".to_string()));
    assert_eq!(filter.find_in("This is a badger."), Some("badger".to_string()));

    // Delete "bad"
    assert!(filter.del_word("bad"));
    assert_eq!(filter.find_in("This is bad."), None);
    assert_eq!(filter.find_in("This is a badge."), Some("badge".to_string()));
    assert_eq!(filter.find_in("This is a badger."), Some("badger".to_string()));

    // Delete a word that is not there
    assert!(!filter.del_word("bad"));

    // Delete "badge"
    assert!(filter.del_word("badge"));
    assert_eq!(filter.find_in("This is a badge."), None);
    assert_eq!(filter.find_in("This is a badger."), Some("badger".to_string()));

    // Delete the last word "badger"
    assert!(filter.del_word("badger"));
    assert_eq!(filter.find_in("This is a badger."), None);

    // Delete a word that is no longer there
    assert!(!filter.del_word("badger"));
}

#[test]
fn trie_find_word_at_reports_longest_prefix() {
    let mut trie = Trie::new();
    trie.add_word("bad");
    trie.add_word("badge");
    assert_eq!(trie.find_word_at("badger"), Some(("badge".to_string(), 5)));
    assert_eq!(trie.find_word_at("bad"), Some(("bad".to_string(), 3)));
    assert_eq!(trie.find_word_at("ba"), None);
    assert_eq!(trie.find_word_at("a bad"), None);
    assert_eq!(trie.find_word_at(""), None);
}

#[test]
fn trie_find_word_at_from_the_start() {
    let mut trie = Trie::new();
    trie.add_word("bad");
    trie.add_word("worse");
    assert_eq!(trie.find_word_at("bad."), Some(("bad".to_string(), 3)));
    assert_eq!(trie.find_word_at("worse."), Some(("worse".to_string(), 5)));
    assert_eq!(trie.find_word_at("good."), None);
}

#[test]
fn trie_counts_characters_not_bytes() {
    let mut trie = Trie::new();
    trie.add_word("赌博");
    assert_eq!(trie.find_word_at("赌博机"), Some(("赌博".to_string(), 2)));
    assert_eq!(trie.replace("含有赌博内容", '*'), "含有**内容");
    assert_eq!(trie.filter("含有赌博内容"), "含有内容");
    assert_eq!(trie.find_all("赌博和赌博"), vec!["赌博", "赌博"]);
}

#[test]
fn trie_empty_word_is_never_reported() {
    let mut trie = Trie::new();
    trie.add_word("");
    assert_eq!(trie.find_in("anything"), None);
    assert_eq!(trie.replace("anything", '*'), "anything");
    assert!(trie.del_word(""));
    assert!(!trie.del_word(""));
}

#[test]
fn trie_add_twice_delete_once() {
    let mut trie = Trie::new();
    trie.add_word("bad");
    trie.add_word("bad");
    assert!(trie.del_word("bad"));
    assert_eq!(trie.find_in("bad"), None);
}

#[test]
fn trie_delete_keeps_longer_and_shorter_words() {
    let mut trie = Trie::new();
    trie.add_word("a");
    trie.add_word("abc");
    assert!(!trie.del_word("ab"));
    assert!(trie.del_word("abc"));
    assert_eq!(trie.find_all("abc a"), vec!["a", "a"]);
}

#[test]
fn trie_root_node_flags() {
    let trie = Trie::default();
    assert_eq!(trie.find_in("x"), None);
}

#[test]
fn test_concurrent_access() {
    let mut filter = Trie::new();
    filter.add_word("concurrent");
    filter.add_word("test");

    for i in 0..10 {
        assert_eq!(filter.find_in("This is a concurrent test."), Some("concurrent".to_string()));
        filter.add_word(&format!("thread{}", i));

        let result = filter.find_all("Thread test is concurrent.");
        assert!(result.contains(&"test".to_string()));
        assert!(result.contains(&"concurrent".to_string()));
    }

    let final_result = filter.find_all(
        "Thread test is concurrent.thread0 thread1 thread2 thread3 thread4 thread5 thread6 thread7 thread8 thread9",
    );
    assert!(final_result.contains(&"test".to_string()));
    assert!(final_result.contains(&"concurrent".to_string()));

    println!("{:?}", final_result);

    for i in 0..10 {
        assert!(final_result.contains(&format!("thread{}", i)));
    }
}

#[test]
fn test_concurrent_del_word() {
    let mut filter = Trie::new();
    filter.add_word("concurrent");
    filter.add_word("test");
    filter.add_word("delete");

    for i in 0..5 {
        if i == 0 {
            assert!(filter.del_word("test"));
        } else {
            filter.del_word("test");
        }
        assert!(!filter.del_word("nonexistent"));
        filter.add_word(&format!("thread{}", i));
    }

    assert_eq!(filter.find_in("This is a concurrent test."), Some("concurrent".to_string()));
    assert_eq!(filter.find_in("This is a delete test."), Some("delete".to_string()));
    assert_eq!(filter.find_in("This is a test."), None);

    for i in 0..5 {
        assert_eq!(filter.find_in(&format!("This is thread{} test.", i)), Some(format!("thread{}", i)));
    }
}
