use html5ever::buffer_queue::BufferQueue;

#[test]
fn smoke_test() {
    let mut bq = BufferQueue::new();
    assert_eq!(bq.has(1), false);
    assert_eq!(bq.peek(), None);
    assert_eq!(bq.next(), None);

    bq.push_back("abc".to_string());
    assert_eq!(bq.has(1), true);
    assert_eq!(bq.has(3), true);
    assert_eq!(bq.has(4), false);

    assert_eq!(bq.peek(), Some('a'));
    assert_eq!(bq.next(), Some('a'));
    assert_eq!(bq.peek(), Some('b'));
    assert_eq!(bq.peek(), Some('b'));
    assert_eq!(bq.next(), Some('b'));
    assert_eq!(bq.peek(), Some('c'));
    assert_eq!(bq.next(), Some('c'));
    assert_eq!(bq.peek(), None);
    assert_eq!(bq.next(), None);
}

#[test]
fn can_pop_front() {
    let mut bq = BufferQueue::new();
    bq.push_back("abc".to_string());

    assert_eq!(bq.pop_front(2), Some("ab".to_string()));
    assert_eq!(bq.peek(), Some('c'));
    assert_eq!(bq.pop_front(2), None);
    assert_eq!(bq.next(), Some('c'));
    assert_eq!(bq.next(), None);
}

#[test]
fn can_unconsume() {
    let mut bq = BufferQueue::new();
    bq.push_back("abc".to_string());
    assert_eq!(bq.next(), Some('a'));

    bq.push_front("xy".to_string());
    assert_eq!(bq.next(), Some('x'));
    assert_eq!(bq.next(), Some('y'));
    assert_eq!(bq.next(), Some('b'));
    assert_eq!(bq.next(), Some('c'));
    assert_eq!(bq.next(), None);
}

#[test]
fn peek_twice_gives_same_and_keeps_count() {
    let mut bq = BufferQueue::new();
    bq.push_back("hi".to_string());
    let first = bq.peek();
    let second = bq.peek();
    assert_eq!(first, Some('h'));
    assert_eq!(first, second);
    assert!(bq.has(2));
    assert!(!bq.has(3));
}

#[test]
fn pop_front_is_all_or_nothing() {
    let mut bq = BufferQueue::new();
    bq.push_back("ab".to_string());
    bq.push_back("cd".to_string());
    assert_eq!(bq.pop_front(5), None);
    assert!(bq.has(4));
    assert!(!bq.has(5));
    assert_eq!(bq.pop_front(3), Some("abc".to_string()));
    assert!(bq.has(1));
    assert!(!bq.has(2));
    assert_eq!(bq.pop_front(1), Some("d".to_string()));
    assert_eq!(bq.pop_front(0), Some(String::new()));
    assert_eq!(bq.pop_front(1), None);
}

#[test]
fn has_follows_available_count() {
    let mut bq = BufferQueue::new();
    assert!(bq.has(0));
    assert!(!bq.has(1));
    bq.push_back("abc".to_string());
    bq.push_front("z".to_string());
    assert!(bq.has(4));
    assert!(!bq.has(5));
    bq.next();
    assert!(bq.has(3));
    assert!(!bq.has(4));
}

#[test]
fn revives_after_drain() {
    let mut bq = BufferQueue::new();
    bq.push_back("a".to_string());
    assert_eq!(bq.next(), Some('a'));
    assert_eq!(bq.next(), None);
    bq.push_back("b".to_string());
    assert_eq!(bq.next(), Some('b'));
    assert_eq!(bq.next(), None);
}

#[test]
fn empty_buffers_are_invisible() {
    let mut bq = BufferQueue::new();
    bq.push_back(String::new());
    assert_eq!(bq.peek(), None);
    assert!(!bq.has(1));
    bq.push_back("q".to_string());
    bq.push_front(String::new());
    assert_eq!(bq.peek(), Some('q'));
    assert_eq!(bq.next(), Some('q'));
    assert_eq!(bq.next(), None);
}

#[test]
fn unconsume_calls_stack() {
    let mut bq = BufferQueue::new();
    bq.push_back("c".to_string());
    bq.push_front("b".to_string());
    bq.push_front("a".to_string());
    assert_eq!(bq.pop_front(3), Some("abc".to_string()));
}

#[test]
fn counts_characters_not_bytes() {
    let mut bq = BufferQueue::new();
    bq.push_back("é€x".to_string());
    assert!(bq.has(3));
    assert!(!bq.has(4));
    assert_eq!(bq.next(), Some('é'));
    assert_eq!(bq.pop_front(2), Some("€x".to_string()));
}
