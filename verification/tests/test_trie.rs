use rust_algo::array_trie::ArrayTrie;
use rust_algo::trie::Trie;

#[test]
fn test_trie_func1() {
    let mut trie = Trie::new();

    trie.insert("hello");
    trie.insert("hell");
    trie.insert("你好");

    assert_eq!(trie.search("hello"), true);
    assert_eq!(trie.search("hello1"), false);
    assert_eq!(trie.search("hel1o"), false);
    assert_eq!(trie.search("hell"), true);
    assert_eq!(trie.search("hel"), false);
    assert_eq!(trie.search("你好"), true);
    assert_eq!(trie.search("aaa"), false);
    assert_eq!(trie.search("a"), false);
    assert_eq!(trie.search(""), false);
}

#[test]
fn func2() {
    let mut array_trie = ArrayTrie::new();

    array_trie.insert("hello");
    array_trie.insert("hell");
    array_trie.insert("你好");

    assert_eq!(array_trie.search("hello"), true);
    assert_eq!(array_trie.search("hello1"), false);
    assert_eq!(array_trie.search("hel1o"), false);
    assert_eq!(array_trie.search("hell"), true);
    assert_eq!(array_trie.search("hel"), false);
    assert_eq!(array_trie.search("你好"), true);
    assert_eq!(array_trie.search("aaa"), false);
    assert_eq!(array_trie.search("a"), false);
    assert_eq!(array_trie.search(""), false);
}

#[test]
fn trie_holds_the_empty_word_once_added() {
    let mut trie = Trie::new();
    assert!(!trie.search(""));
    trie.insert("");
    assert!(trie.search(""));
    assert!(!trie.search("a"));
    trie.insert("a");
    trie.insert("a");
    assert!(trie.search("a"));
    assert!(!trie.search("aa"));
}

#[test]
fn trie_tells_a_word_from_its_prefixes_and_by_bytes() {
    let mut trie = Trie::new();
    trie.insert("你好");
    assert!(!trie.search("你"));
    assert!(!trie.search("好"));
    assert!(!trie.search("你好吗"));
    trie.insert("你");
    assert!(trie.search("你"));
    assert!(trie.search("你好"));
    // The first byte of the word alone is no word.
    assert!(!trie.search("\u{e4}"));
}

#[test]
fn array_trie_holds_the_empty_word_once_added() {
    let mut trie = ArrayTrie::new();
    assert!(!trie.search(""));
    trie.insert("");
    assert!(trie.search(""));
    assert!(!trie.search("a"));
    trie.insert("ab");
    trie.insert("ab");
    assert!(trie.search("ab"));
    assert!(!trie.search("a"));
    assert!(!trie.search("abc"));
    trie.insert("a");
    assert!(trie.search("a"));
}

#[test]
fn both_tries_agree() {
    let words = ["", "a", "ab", "abc", "b", "你好", "hello", "hell"];
    let probes = ["", "a", "ab", "abc", "abcd", "b", "c", "你好", "你", "hello", "hell", "hel", "help"];
    let mut trie = Trie::new();
    let mut array_trie = ArrayTrie::new();
    for (n, word) in words.iter().enumerate() {
        trie.insert(word);
        array_trie.insert(word);
        for probe in probes {
            let expected = words[..=n].contains(&probe);
            assert_eq!(trie.search(probe), expected);
            assert_eq!(array_trie.search(probe), expected);
        }
    }
}
