use abstrie::grouped::LengthGroupedNode;
use abstrie::trie::TrieNode;

#[test]
fn test_generic_char_trie() {
    let words: Vec<&str> = vec![
        "ape",
        "app",
        "application",
        "bans",
        "bat",
        "banner",
        "pot",
        "potion",
    ];
    let trie = TrieNode::from_words(&words);
    let length_grouped = LengthGroupedNode::from_trie(&trie);

    // Should have 2 main groups: length 2 and length 3
    assert_eq!(length_grouped.num_children(), 2);
}

#[test]
fn test_generic_word_trie() {
    // words as opaque symbols: the = 1, cat = 2, dog = 3, a = 4
    let sentences: Vec<Vec<u64>> = vec![vec![1, 2], vec![1, 3], vec![4, 2]];

    let trie = TrieNode::from_sequences(&sentences);
    let length_grouped = LengthGroupedNode::from_trie(&trie);

    // Should have groups based on word count
    assert!(length_grouped.num_children() != 0);
}

#[test]
fn test_generic_integer_trie() {
    let sequences: Vec<Vec<u64>> = vec![vec![1, 2], vec![1, 3], vec![2, 3]];

    let trie = TrieNode::from_sequences(&sequences);
    let length_grouped = LengthGroupedNode::from_trie(&trie);

    // Should create proper groupings
    assert!(length_grouped.num_children() != 0);
}
