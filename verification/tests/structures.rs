use mcp_filesystem::structures::{PathTrie, RingBuffer};

#[test]
fn test_path_trie_basic() {
    let mut trie = PathTrie::new();
    trie.insert("/home/user/projects");

    assert!(trie.contains("/home/user/projects"));
    assert!(trie.contains("/home/user/projects/src"));
    assert!(trie.contains("/home/user/projects/src/main.rs"));
    assert!(!trie.contains("/home/user"));
    assert!(!trie.contains("/etc"));
}

#[test]
fn test_path_trie_multiple() {
    let mut trie = PathTrie::new();
    trie.insert("/home/user/projects");
    trie.insert("/var/log");

    assert!(trie.contains("/home/user/projects/mcp"));
    assert!(trie.contains("/var/log/syslog"));
    assert!(!trie.contains("/home/user"));
    assert!(!trie.contains("/var"));
}

#[test]
fn test_ring_buffer() {
    let mut buf = RingBuffer::new(3);
    assert!(buf.is_empty());

    buf.push(1);
    buf.push(2);
    buf.push(3);
    assert!(buf.is_full());
    assert_eq!(buf.to_vec(), vec![&1, &2, &3]);

    buf.push(4);
    assert_eq!(buf.to_vec(), vec![&2, &3, &4]);

    assert_eq!(buf.pop(), Some(2));
    assert_eq!(buf.pop(), Some(3));
    assert_eq!(buf.pop(), Some(4));
    assert!(buf.is_empty());
}

#[test]
fn test_ring_buffer_iterator() {
    let mut buf = RingBuffer::new(3);
    buf.push(10);
    buf.push(20);
    buf.push(30);

    let mut collected: Vec<&i32> = Vec::new();
    let mut it = buf.iter();
    while let Some(x) = it.next() {
        collected.push(x);
    }
    assert_eq!(collected, vec![&10, &20, &30]);
}

#[test]
fn test_longest_prefix() {
    let mut trie = PathTrie::new();
    trie.insert("/home/user/projects");
    trie.insert("/home/user");

    let lp = trie.longest_prefix("/home/user/projects/mcp/src");
    assert!(lp.is_some());
    assert_eq!(lp.unwrap(), "/home/user/projects");
}

#[test]
fn trie_prefix_of_inserted_path_is_not_contained() {
    let mut trie = PathTrie::new();
    trie.insert("/a/b");
    assert!(trie.contains("/a/b/c"));
    assert!(!trie.contains("/a"));
    assert!(!trie.contains("a/b"));
}

#[test]
fn trie_parent_dir_escape_is_refused() {
    let mut trie = PathTrie::new();
    trie.insert("/srv/data");
    assert!(!trie.contains("/srv/data/../secret"));
    assert!(trie.contains("/srv/data/./x"));
    assert!(trie.contains("/srv//data/x/"));
}

#[test]
fn trie_longest_prefix_picks_deepest_and_none_outside() {
    let mut trie = PathTrie::new();
    trie.extend(vec!["/a".to_string(), "/a/b/c".to_string()]);
    assert_eq!(trie.longest_prefix("/a/b/c/d").unwrap(), "/a/b/c");
    assert_eq!(trie.longest_prefix("/a/b").unwrap(), "/a");
    assert!(trie.longest_prefix("/z").is_none());
}

#[test]
fn trie_empty_path_makes_everything_contained() {
    let mut trie = PathTrie::new();
    assert!(!trie.contains("/x"));
    trie.insert("");
    assert!(trie.contains("/x"));
    assert_eq!(trie.longest_prefix("/x").unwrap(), "");
}

#[test]
fn ring_buffer_keeps_newest_items() {
    let mut buf = RingBuffer::new(2);
    for i in 0..5 {
        buf.push(i);
    }
    assert_eq!(buf.len(), 2);
    assert_eq!(buf.capacity(), 2);
    assert_eq!(buf.into_vec(), vec![3, 4]);
}

#[test]
fn ring_buffer_pop_on_empty_and_zero_capacity() {
    let mut buf: RingBuffer<u8> = RingBuffer::new(0);
    assert!(buf.is_empty());
    assert!(buf.is_full());
    assert_eq!(buf.pop(), None);
    assert_eq!(buf.to_vec().len(), 0);
}

#[test]
fn ring_buffer_wraps_after_pops() {
    let mut buf = RingBuffer::new(3);
    buf.push('a');
    buf.push('b');
    assert_eq!(buf.pop(), Some('a'));
    buf.push('c');
    buf.push('d');
    buf.push('e');
    assert_eq!(buf.to_vec(), vec![&'c', &'d', &'e']);
    let it = buf.iter();
    assert_eq!(it.size_hint(), (3, Some(3)));
}
