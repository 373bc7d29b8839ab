use std::collections::HashSet;
use rust_ukkonen::{EdgeEnd, Node, UkkonenTree, ROOT};

fn chars(s: &str) -> Vec<char> {
    s.chars().collect()
}

fn as_set(found: Vec<usize>) -> HashSet<usize> {
    let count = found.len();
    let set: HashSet<usize> = found.into_iter().collect();
    assert_eq!(set.len(), count, "a position was listed twice");
    set
}

fn by_hand<T: PartialEq>(text: &[T], pattern: &[T]) -> HashSet<usize> {
    let mut out = HashSet::new();
    if pattern.len() > text.len() {
        return out;
    }
    for i in 0..=(text.len() - pattern.len()) {
        if text[i..i + pattern.len()] == *pattern {
            out.insert(i);
        }
    }
    out
}

fn every_slice_is_found(text: &[char]) {
    let tree = UkkonenTree::new(text);
    for i in 0..=text.len() {
        for k in 0..=(text.len() - i) {
            let pattern = &text[i..i + k];
            let found = as_set(tree.find(pattern));
            assert!(found.contains(&i));
            assert_eq!(found, by_hand(text, pattern));
        }
    }
}

#[test]
fn banana_ana() {
    let text = chars("banana");
    let tree = UkkonenTree::new(&text);
    assert_eq!(as_set(tree.find(&chars("ana"))), HashSet::from([1, 3]));
}

#[test]
fn banana_xyz() {
    let text = chars("banana");
    let tree = UkkonenTree::new(&text);
    assert_eq!(as_set(tree.find(&chars("xyz"))), HashSet::new());
}

#[test]
fn banana_single_elements() {
    let text = chars("banana");
    let tree = UkkonenTree::new(&text);
    assert_eq!(as_set(tree.find(&chars("a"))), HashSet::from([1, 3, 5]));
    assert_eq!(as_set(tree.find(&chars("n"))), HashSet::from([2, 4]));
    assert_eq!(as_set(tree.find(&chars("b"))), HashSet::from([0]));
    assert_eq!(as_set(tree.find(&chars("na"))), HashSet::from([2, 4]));
}

#[test]
fn whole_sequence_is_found_at_zero() {
    let text = chars("banana");
    let tree = UkkonenTree::new(&text);
    assert_eq!(as_set(tree.find(&text)), HashSet::from([0]));
}

#[test]
fn pattern_longer_than_sequence() {
    let text = chars("abc");
    let tree = UkkonenTree::new(&text);
    assert_eq!(as_set(tree.find(&chars("abcd"))), HashSet::new());
    assert_eq!(as_set(tree.find(&chars("abcabc"))), HashSet::new());
}

#[test]
fn pattern_that_leaves_the_sequence_midway() {
    let text = chars("abcabd");
    let tree = UkkonenTree::new(&text);
    assert_eq!(as_set(tree.find(&chars("abx"))), HashSet::new());
    assert_eq!(as_set(tree.find(&chars("abda"))), HashSet::new());
    assert_eq!(as_set(tree.find(&chars("ab"))), HashSet::from([0, 3]));
}

#[test]
fn empty_pattern_stands_everywhere() {
    let text = chars("abc");
    let tree = UkkonenTree::new(&text);
    assert_eq!(as_set(tree.find(&[])), HashSet::from([0, 1, 2, 3]));
}

#[test]
fn empty_sequence() {
    let text: Vec<char> = Vec::new();
    let tree = UkkonenTree::new(&text);
    assert_eq!(as_set(tree.find(&[])), HashSet::from([0]));
    assert_eq!(as_set(tree.find(&chars("a"))), HashSet::new());
}

#[test]
fn one_element() {
    let text = chars("a");
    let tree = UkkonenTree::new(&text);
    assert_eq!(as_set(tree.find(&chars("a"))), HashSet::from([0]));
    assert_eq!(as_set(tree.find(&chars("b"))), HashSet::new());
    assert_eq!(as_set(tree.find(&chars("aa"))), HashSet::new());
}

#[test]
fn one_element_repeated() {
    let text = chars("aaaaa");
    let tree = UkkonenTree::new(&text);
    assert_eq!(as_set(tree.find(&chars("a"))), HashSet::from([0, 1, 2, 3, 4]));
    assert_eq!(as_set(tree.find(&chars("aa"))), HashSet::from([0, 1, 2, 3]));
    assert_eq!(as_set(tree.find(&chars("aaaaa"))), HashSet::from([0]));
    assert_eq!(as_set(tree.find(&chars("aaaaaa"))), HashSet::new());
}

#[test]
fn found_positions_hold_the_pattern() {
    let text = chars("abracadabra");
    let tree = UkkonenTree::new(&text);
    for pattern in ["a", "abra", "bra", "cad", "ra", "dab", "abracadabra"] {
        let pattern = chars(pattern);
        for p in tree.find(&pattern) {
            assert_eq!(&text[p..p + pattern.len()], &pattern[..]);
        }
    }
}

#[test]
fn every_slice_of_banana() {
    every_slice_is_found(&chars("banana"));
}

#[test]
fn every_slice_of_mississippi() {
    every_slice_is_found(&chars("mississippi"));
}

#[test]
fn every_slice_of_repetitive_sequences() {
    every_slice_is_found(&chars("aaaaaaaa"));
    every_slice_is_found(&chars("abababababab"));
    every_slice_is_found(&chars("abcabxabcd"));
    every_slice_is_found(&chars("aabaacaabaad"));
    every_slice_is_found(&chars("xabxacxabxad"));
}

#[test]
fn all_short_sequences_over_three_elements() {
    let alphabet = ['a', 'b', 'c'];
    for len in 0..=7usize {
        let total = 3usize.pow(len as u32);
        for code in 0..total {
            let mut text = Vec::new();
            let mut rest = code;
            for _ in 0..len {
                text.push(alphabet[rest % 3]);
                rest /= 3;
            }
            let tree = UkkonenTree::new(&text);
            for plen in 1..=3usize {
                for pcode in 0..3usize.pow(plen as u32) {
                    let mut pattern = Vec::new();
                    let mut prest = pcode;
                    for _ in 0..plen {
                        pattern.push(alphabet[prest % 3]);
                        prest /= 3;
                    }
                    assert_eq!(as_set(tree.find(&pattern)), by_hand(&text, &pattern));
                }
            }
        }
    }
}

#[test]
fn repeated_searches_agree() {
    let text = chars("mississippi");
    let tree = UkkonenTree::new(&text);
    let pattern = chars("ssi");
    let first = as_set(tree.find(&pattern));
    let second = as_set(tree.find(&pattern));
    assert_eq!(first, second);
    assert_eq!(first, HashSet::from([2, 5]));
}

#[test]
fn extending_step_by_step_equals_building_from_the_prefix() {
    let text = chars("mississippi");
    let empty: Vec<char> = Vec::new();
    let mut grown = UkkonenTree::new(&empty);
    let patterns = ["", "i", "s", "ss", "issi", "ssi", "pp", "mississippi", "x"];
    for len in 0..=text.len() {
        if len > 0 {
            grown.extend_tree(&text[len - 1]);
        }
        let direct = UkkonenTree::new(&text[..len]);
        for pattern in patterns {
            let pattern = chars(pattern);
            assert_eq!(as_set(grown.find(&pattern)), as_set(direct.find(&pattern)));
            assert_eq!(as_set(grown.find(&pattern)), by_hand(&text[..len], &pattern));
        }
    }
}

#[test]
fn extending_after_construction() {
    let text = chars("banana");
    let mut tree = UkkonenTree::new(&text[..3]);
    assert_eq!(as_set(tree.find(&chars("an"))), HashSet::from([1]));
    assert_eq!(as_set(tree.find(&chars("ana"))), HashSet::new());
    tree.extend_tree(&text[3]);
    tree.extend_tree(&text[4]);
    assert_eq!(as_set(tree.find(&chars("an"))), HashSet::from([1, 3]));
    assert_eq!(as_set(tree.find(&chars("ana"))), HashSet::from([1]));
    tree.extend_tree(&text[5]);
    assert_eq!(as_set(tree.find(&chars("ana"))), HashSet::from([1, 3]));
}

#[test]
fn works_on_strings_as_elements() {
    let words: Vec<String> = ["to", "be", "or", "not", "to", "be"].iter().map(|w| w.to_string()).collect();
    let tree = UkkonenTree::new(&words);
    let pattern = vec!["to".to_string(), "be".to_string()];
    assert_eq!(as_set(tree.find(&pattern)), HashSet::from([0, 4]));
    let pattern = vec!["be".to_string(), "or".to_string()];
    assert_eq!(as_set(tree.find(&pattern)), HashSet::from([1]));
}

#[test]
fn longer_sequence_against_search_by_hand() {
    // a sequence with long repeats, from a small linear recurrence
    let mut text: Vec<u8> = Vec::new();
    let mut state: u32 = 7;
    for _ in 0..400 {
        state = (state * 1103 + 12345) % 7919;
        text.push((state % 4) as u8);
    }
    let tree = UkkonenTree::new(&text);
    for start in (0..text.len()).step_by(13) {
        for len in [1usize, 2, 3, 5, 8, 21] {
            if start + len <= text.len() {
                let pattern = &text[start..start + len];
                assert_eq!(as_set(tree.find(pattern)), by_hand(&text, pattern));
            }
        }
    }
    assert_eq!(as_set(tree.find(&[9, 9])), HashSet::new());
}

#[test]
fn new_node_is_an_open_leaf_without_links() {
    let node = Node::new(5);
    assert_eq!(node.start, 5);
    assert_eq!(node.end, EdgeEnd::Open);
    assert!(node.children.is_empty());
    assert_eq!(node.suffix_link, None);
    assert_eq!(node.suffix_start, None);
}

#[test]
fn tree_of_the_empty_sequence_is_its_root() {
    let text: Vec<char> = Vec::new();
    let tree = UkkonenTree::new(&text);
    assert_eq!(tree.len(), 0);
    assert_eq!(tree.node_count(), 1);
    let root = tree.node(ROOT).unwrap();
    assert!(root.children.is_empty());
    assert_eq!(root.end, EdgeEnd::Fixed(0));
    assert!(tree.node(1).is_none());
    assert!(tree.element(0).is_none());
}

#[test]
fn nodes_of_a_small_tree() {
    // "abab" has the leaves of "abab" and "bab"; "ab" and "b" still wait
    let text = chars("abab");
    let tree = UkkonenTree::new(&text);
    assert_eq!(tree.len(), 4);
    assert_eq!(tree.node_count(), 3);
    let root = tree.node(ROOT).unwrap();
    assert_eq!(root.children.len(), 2);
    for child in root.children.iter() {
        let leaf = tree.node(*child).unwrap();
        assert_eq!(leaf.end, EdgeEnd::Open);
        assert_eq!(leaf.suffix_start, Some(leaf.start));
        assert!(leaf.children.is_empty());
    }
    assert_eq!(tree.element(2), Some(&'a'));
    assert_eq!(tree.element(4), None);
}

#[test]
fn split_edge_keeps_the_suffix_start_of_the_old_leaf() {
    // taking in 'x' splits the edges of "abab" and "bab" after "ab" and "b"
    let text = chars("ababx");
    let tree = UkkonenTree::new(&text);
    assert_eq!(tree.node_count(), 8);
    let mut leaf_starts = Vec::new();
    let mut inner = 0;
    for index in 1..tree.node_count() {
        let node = tree.node(index).unwrap();
        match node.end {
            EdgeEnd::Open => {
                assert!(node.suffix_start.is_some());
                leaf_starts.push(node.suffix_start.unwrap());
            }
            EdgeEnd::Fixed(end) => {
                assert!(node.start < end);
                assert_eq!(node.suffix_start, None);
                assert_eq!(node.children.len(), 2);
                inner += 1;
            }
        }
    }
    leaf_starts.sort();
    assert_eq!(leaf_starts, vec![0, 1, 2, 3, 4]);
    assert_eq!(inner, 2);
}

#[test]
fn suffix_links_lead_to_the_path_without_its_first_element() {
    let text = chars("ababx");
    let tree = UkkonenTree::new(&text);
    // the inner node of "ab" links to the inner node of "b", which links nowhere
    let mut ab = None;
    let mut b = None;
    for index in 1..tree.node_count() {
        let node = tree.node(index).unwrap();
        if let EdgeEnd::Fixed(end) = node.end {
            if end - node.start == 2 {
                ab = Some(index);
            } else {
                b = Some(index);
            }
        }
    }
    let (ab, b) = (ab.unwrap(), b.unwrap());
    assert_eq!(tree.node(ab).unwrap().suffix_link, Some(b));
    assert_eq!(tree.node(b).unwrap().suffix_link, None);
}

#[test]
fn node_count_stays_within_twice_the_length() {
    for text in ["a", "ab", "aa", "banana", "mississippi", "abcabxabcd", "aaaaab", "abcdefgh"] {
        let text = chars(text);
        let empty: Vec<char> = Vec::new();
        let mut tree = UkkonenTree::new(&empty);
        for (taken, element) in text.iter().enumerate() {
            tree.extend_tree(element);
            assert_eq!(tree.len(), taken + 1);
            assert!(tree.node_count() >= 2);
            assert!(tree.node_count() <= 2 * (taken + 1));
        }
    }
}

#[test]
fn remainder_counts_the_suffixes_that_repeat() {
    for (text, waiting) in [("", 0), ("a", 0), ("aaaa", 3), ("abab", 2), ("banana", 3), ("babcababx", 0), ("mississippi", 1)] {
        let text = chars(text);
        let tree = UkkonenTree::new(&text);
        assert_eq!(tree.remainder(), waiting);
        // by hand: the suffix from i repeats where it stands at an earlier offset
        let mut repeating = 0;
        for i in 0..text.len() {
            let suffix = &text[i..];
            if (0..i).any(|j| text[j..j + suffix.len()] == *suffix) {
                repeating += 1;
            }
        }
        assert_eq!(tree.remainder(), repeating);
    }
}

#[test]
fn leaves_hold_the_offsets_before_the_waiting_suffixes() {
    // of "banana" the suffixes "ana", "na" and "a" wait for their leaves
    let text = chars("banana");
    let tree = UkkonenTree::new(&text);
    assert_eq!(tree.remainder(), 3);
    assert_eq!(as_set(tree.find_leaves(&chars("ana"))), HashSet::from([1]));
    assert_eq!(as_set(tree.find_leaves(&chars("a"))), HashSet::from([1]));
    assert_eq!(as_set(tree.find_leaves(&chars("banana"))), HashSet::from([0]));
    assert_eq!(as_set(tree.find_leaves(&chars("nab"))), HashSet::new());
    assert_eq!(as_set(tree.find_leaves(&[])), HashSet::from([0, 1, 2]));
}

#[test]
fn leaves_hold_every_offset_once_the_last_element_is_new() {
    for text in ["banana$", "babcababx", "mississippi$", "aaaab", "x"] {
        let text = chars(text);
        let tree = UkkonenTree::new(&text);
        assert_eq!(tree.remainder(), 0);
        for i in 0..text.len() {
            for k in 1..=(text.len() - i) {
                let pattern = &text[i..i + k];
                assert_eq!(as_set(tree.find_leaves(pattern)), by_hand(&text, pattern));
                assert_eq!(as_set(tree.find_leaves(pattern)), as_set(tree.find(pattern)));
            }
        }
    }
}

#[test]
fn leaves_against_search_by_hand() {
    for text in ["abab", "aaaa", "mississippi", "abcabxabcd", "abcabcabc"] {
        let text = chars(text);
        let tree = UkkonenTree::new(&text);
        let bound = text.len() - tree.remainder();
        for i in 0..=text.len() {
            for k in 0..=(text.len() - i) {
                let pattern = &text[i..i + k];
                let expected: HashSet<usize> =
                    by_hand(&text, pattern).into_iter().filter(|p| *p < bound).collect();
                assert_eq!(as_set(tree.find_leaves(pattern)), expected);
            }
        }
    }
}
