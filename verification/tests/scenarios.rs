use abstrie::grouped::LengthGroupKey;
use abstrie::grouped::LengthGroupedNode;
use abstrie::trie::TrieNode;
use abstrie::Token;

fn find_child<T: Token + PartialEq>(node: &TrieNode<T>, seg: &Vec<T>) -> Option<usize> {
    let mut i = 0;
    while i < node.num_children() {
        if node.child_segment(i) == seg {
            return Some(i);
        }
        i += 1;
    }
    None
}

fn tries_equal<T: Token + PartialEq>(a: &TrieNode<T>, b: &TrieNode<T>) -> bool {
    if a.is_terminal() != b.is_terminal() || a.num_children() != b.num_children() {
        return false;
    }
    let mut i = 0;
    while i < a.num_children() {
        if a.child_segment(i) != b.child_segment(i) {
            return false;
        }
        if !tries_equal(a.child_node(i), b.child_node(i)) {
            return false;
        }
        i += 1;
    }
    true
}

#[test]
fn branch_at_shared_prefix_boundary() {
    // "ape" and "app" diverge after "ap" while "application" continues
    // through "app": the builder must branch at the "ap" boundary rather
    // than emit a single long edge, and terminal markers must land exactly
    // on the nodes completing each word.
    let words: Vec<&str> = vec!["ape", "app", "application"];
    let trie = TrieNode::from_words(&words);
    assert!(!trie.is_terminal());
    assert_eq!(trie.num_children(), 1);
    assert_eq!(trie.child_segment(0), &vec!['a', 'p']);

    let ap = trie.child_node(0);
    assert!(!ap.is_terminal());
    assert_eq!(ap.num_children(), 2);

    let e_idx = find_child(ap, &vec!['e']).unwrap();
    let e_node = ap.child_node(e_idx);
    assert!(e_node.is_terminal());
    assert_eq!(e_node.num_children(), 0);

    let p_idx = find_child(ap, &vec!['p']).unwrap();
    let p_node = ap.child_node(p_idx);
    assert!(p_node.is_terminal());
    assert_eq!(p_node.num_children(), 1);
    let lication: Vec<char> = "lication".chars().collect();
    assert_eq!(p_node.child_segment(0), &lication);
    assert!(p_node.child_node(0).is_terminal());
    assert_eq!(p_node.child_node(0).num_children(), 0);
}

#[test]
fn no_global_prefix_groups_by_first_token() {
    // no common prefix: the root groups by first token into buckets {1} and
    // {2}; bucket {1} further splits on the next token into {2} and {3}.
    let sequences: Vec<Vec<u64>> = vec![vec![1, 2], vec![1, 3], vec![2, 3]];
    let trie = TrieNode::from_sequences(&sequences);
    assert!(!trie.is_terminal());
    assert_eq!(trie.num_children(), 2);

    let one_idx = find_child(&trie, &vec![1]).unwrap();
    let one = trie.child_node(one_idx);
    assert!(!one.is_terminal());
    assert_eq!(one.num_children(), 2);
    let two = one.child_node(find_child(one, &vec![2]).unwrap());
    assert!(two.is_terminal());
    assert_eq!(two.num_children(), 0);
    let three = one.child_node(find_child(one, &vec![3]).unwrap());
    assert!(three.is_terminal());
    assert_eq!(three.num_children(), 0);

    let tail_idx = find_child(&trie, &vec![2, 3]).unwrap();
    let tail = trie.child_node(tail_idx);
    assert!(tail.is_terminal());
    assert_eq!(tail.num_children(), 0);
}

#[test]
fn grouping_buckets_by_edge_length() {
    // a root with two single-token edges and one two-token edge yields
    // exactly two grouped children: one keyed by length 1 (merging the two
    // single-token edges), one keyed by length 2.
    let sequences: Vec<Vec<u64>> = vec![
        vec![10, 1],
        vec![10, 2],
        vec![20, 3],
        vec![20, 4],
        vec![30, 5, 6],
        vec![30, 5, 7],
    ];
    let trie = TrieNode::from_sequences(&sequences);
    assert_eq!(trie.num_children(), 3);

    let grouped = LengthGroupedNode::from_trie(&trie);
    assert_eq!(grouped.num_children(), 2);
    let k0 = grouped.child_key(0);
    assert_eq!(k0.length(), 1);
    assert_eq!(k0.num_segments(), 2);
    assert_eq!(k0.segment_at(0), &vec![10]);
    assert_eq!(k0.segment_at(1), &vec![20]);
    let k1 = grouped.child_key(1);
    assert_eq!(k1.length(), 2);
    assert_eq!(k1.num_segments(), 1);
    assert_eq!(k1.segment_at(0), &vec![30, 5]);
}

#[test]
fn empty_input_gives_bare_leaves() {
    let sequences: Vec<Vec<u64>> = vec![];
    let trie = TrieNode::from_sequences(&sequences);
    assert!(!trie.is_terminal());
    assert_eq!(trie.num_children(), 0);

    let grouped = LengthGroupedNode::from_trie(&trie);
    assert!(!grouped.is_terminal());
    assert_eq!(grouped.num_children(), 0);
}

#[test]
fn single_sequence_single_edge() {
    let words: Vec<&str> = vec!["a"];
    let trie = TrieNode::from_words(&words);
    assert!(!trie.is_terminal());
    assert_eq!(trie.num_children(), 1);
    assert_eq!(trie.child_segment(0), &vec!['a']);
    assert!(trie.child_node(0).is_terminal());
    assert_eq!(trie.child_node(0).num_children(), 0);

    let grouped = LengthGroupedNode::from_trie(&trie);
    assert!(!grouped.is_terminal());
    assert_eq!(grouped.num_children(), 1);
    assert_eq!(grouped.child_key(0).length(), 1);
    assert_eq!(grouped.child_key(0).num_segments(), 1);
    assert_eq!(grouped.child_key(0).segment_at(0), &vec!['a']);
    assert!(grouped.child_node(0).is_terminal());
    assert_eq!(grouped.child_node(0).num_children(), 0);
}

#[test]
fn duplicates_and_order_do_not_matter() {
    let plain: Vec<Vec<u64>> = vec![vec![1, 2], vec![1, 3], vec![2, 3]];
    let noisy: Vec<Vec<u64>> = vec![
        vec![2, 3],
        vec![1, 3],
        vec![1, 2],
        vec![1, 3],
        vec![2, 3],
        vec![1, 2],
        vec![1, 2],
    ];
    let a = TrieNode::from_sequences(&plain);
    let b = TrieNode::from_sequences(&noisy);
    assert!(tries_equal(&a, &b));
}

#[test]
fn empty_sequence_marks_root_terminal() {
    let sequences: Vec<Vec<u64>> = vec![vec![], vec![7]];
    let trie = TrieNode::from_sequences(&sequences);
    assert!(trie.is_terminal());
    assert_eq!(trie.num_children(), 1);
    assert_eq!(trie.child_segment(0), &vec![7]);

    let grouped = LengthGroupedNode::from_trie(&trie);
    assert!(grouped.is_terminal());
}

#[test]
fn merged_group_unions_grandchildren() {
    // children [1] and [2] share the grandchild label [5]; the merged
    // length-1 group holds the union {[5], [6], [9]} one level down.
    let sequences: Vec<Vec<u64>> = vec![vec![1, 5], vec![1, 6], vec![2, 5], vec![2, 9]];
    let trie = TrieNode::from_sequences(&sequences);
    assert_eq!(trie.num_children(), 2);

    let grouped = LengthGroupedNode::from_trie(&trie);
    assert_eq!(grouped.num_children(), 1);
    assert!(!grouped.is_terminal());
    let key = grouped.child_key(0);
    assert_eq!(key.length(), 1);
    assert_eq!(key.num_segments(), 2);

    let merged = grouped.child_node(0);
    // neither child of the root was terminal
    assert!(!merged.is_terminal());
    assert_eq!(merged.num_children(), 1);
    let inner_key = merged.child_key(0);
    assert_eq!(inner_key.length(), 1);
    assert_eq!(inner_key.num_segments(), 3);
    assert_eq!(inner_key.segment_at(0), &vec![5]);
    assert_eq!(inner_key.segment_at(1), &vec![6]);
    assert_eq!(inner_key.segment_at(2), &vec![9]);
    // all grandchildren were terminal leaves
    assert!(merged.child_node(0).is_terminal());
    assert_eq!(merged.child_node(0).num_children(), 0);
}

#[test]
fn terminal_flag_is_or_of_merged_children() {
    // the child under [2] is terminal (sequence [2] ends there), the child
    // under [1, 5] is a terminal leaf; both merged groups keep a true flag,
    // and a group of non-terminal children keeps a false one.
    let sequences: Vec<Vec<u64>> = vec![vec![1, 5], vec![2], vec![2, 6]];
    let trie = TrieNode::from_sequences(&sequences);
    assert_eq!(trie.num_children(), 2);

    let grouped = LengthGroupedNode::from_trie(&trie);
    assert_eq!(grouped.num_children(), 2);
    // groups appear in first-occurrence order of the lengths: the [1, 5]
    // edge comes first
    let len2 = grouped.child_node(0);
    let len1 = grouped.child_node(1);
    assert_eq!(grouped.child_key(0).length(), 2);
    assert_eq!(grouped.child_key(1).length(), 1);
    // [2]'s node is terminal; [1,5]'s node is a terminal leaf
    assert!(len1.is_terminal());
    assert!(len2.is_terminal());
}

#[test]
fn key_constructor_canonicalizes() {
    let key = LengthGroupKey::new(
        2,
        vec![vec![3u64, 4], vec![1, 2], vec![3, 4], vec![1, 2]],
    );
    assert_eq!(key.length(), 2);
    assert_eq!(key.num_segments(), 2);
    assert_eq!(key.segment_at(0), &vec![1, 2]);
    assert_eq!(key.segment_at(1), &vec![3, 4]);
}

#[test]
fn fresh_nodes_are_empty() {
    let t: TrieNode<u64> = TrieNode::new();
    assert!(!t.is_terminal());
    assert_eq!(t.num_children(), 0);
    let g: LengthGroupedNode<u64> = LengthGroupedNode::new();
    assert!(!g.is_terminal());
    assert_eq!(g.num_children(), 0);
}
