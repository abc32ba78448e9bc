use shared_mime::search_queue::SearchQueue;

#[test]
fn test_empty() {
    let mut queue = SearchQueue::<String>::new();
    assert!(queue.get().is_none())
}

#[test]
fn test_add_remove() {
    let mut queue = SearchQueue::<String>::new();
    queue.maybe_add("hello");
    assert!(queue.get() == Some("hello".into()));
    assert!(queue.get().is_none());
}

#[test]
fn test_add_twice() {
    let mut queue = SearchQueue::<String>::new();
    queue.maybe_add("hello");
    queue.maybe_add("bob");
    queue.maybe_add("hello");
    assert_eq!(queue.len(), 2);
    assert!(queue.get() == Some("hello".into()));
    assert!(queue.get() == Some("bob".into()));
    assert!(queue.get().is_none());
}

#[test]
fn taken_entries_are_not_queued_again() {
    let mut queue = SearchQueue::<String>::new();
    assert!(queue.maybe_add("a"));
    assert_eq!(queue.get(), Some("a".to_string()));
    assert!(!queue.maybe_add("a"));
    assert!(queue.saw("a"));
    assert!(!queue.saw("b"));
    assert_eq!(queue.len(), 0);
}
