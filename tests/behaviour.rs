use fast_trie_tree::{Iter, TrieNode, TrieTree};

fn chars(s: &str) -> Vec<char> {
    s.chars().collect()
}

fn drain<'a, T>(mut it: Iter<'a, T>) -> Vec<Vec<T>>
where
    T: Copy + Ord,
{
    let mut out: Vec<Vec<T>> = it.collect_rest().into_iter().map(|v| v.into_iter().copied().collect()).collect();
    out.sort();
    out
}

fn key_debug<T: std::fmt::Debug>(k: &T) -> String {
    format!("{:?}", k)
}

#[test]
fn tri_state_query() {
    let mut tree = TrieTree::new();
    assert!(tree.insert(&chars("abcd")));
    assert_eq!(tree.query_nostop(&chars("abcd")), Some(true));
    assert_eq!(tree.query_nostop(&chars("abc")), Some(false));
    assert_eq!(tree.query_nostop(&chars("")), Some(false));
    assert_eq!(tree.query_nostop(&chars("bcd")), None);
    assert_eq!(tree.query_nostop(&chars("abcde")), None);
    assert!(tree.query(&chars("abcd")));
    assert!(!tree.query(&chars("abc")));
    assert!(!tree.query(&chars("bcd")));
    assert!(!tree.query(&chars("abcde")));
}

#[test]
fn prefix_iteration() {
    let mut tree = TrieTree::new();
    assert!(tree.insert(&chars("abc")));
    assert!(tree.insert(&chars("ace")));
    assert!(tree.insert(&chars("bee")));
    let first = drain(tree.query_iter(&chars("a")).unwrap());
    assert_eq!(first, vec![chars("bc"), chars("ce")]);
    let again = drain(tree.query_iter(&chars("a")).unwrap());
    assert_eq!(again, first);
    assert!(tree.query_iter(&chars("z")).is_none());
    assert!(tree.query_iter(&chars("abcd")).is_none());
    assert_eq!(drain(tree.query_iter(&chars("abc")).unwrap()), vec![Vec::<char>::new()]);
    assert_eq!(drain(tree.query_iter(&chars("")).unwrap()), vec![chars("abc"), chars("ace"), chars("bee")]);
}

#[test]
fn pruning_after_remove() {
    let mut tree = TrieTree::new();
    assert!(tree.insert(&chars("abc")));
    assert!(tree.remove(&chars("abc")));
    assert_eq!(tree.count(), 0);
    assert!(tree.iter().next().is_none());
    assert_eq!(tree.root().childs().len(), 0);
    assert!(tree.root().is_empty());
    assert!(tree.root().can_remove());
    assert_eq!(tree.query_nostop(&chars("a")), None);
}

#[test]
fn pruning_keeps_shared_branch() {
    let mut tree = TrieTree::new();
    assert!(tree.insert(&chars("abc")));
    assert!(tree.insert(&chars("abd")));
    assert!(tree.insert(&chars("a")));
    assert!(tree.remove(&chars("abc")));
    assert_eq!(tree.query_nostop(&chars("ab")), Some(false));
    assert_eq!(tree.query_nostop(&chars("abc")), None);
    assert!(tree.query(&chars("abd")));
    assert!(tree.remove(&chars("abd")));
    assert_eq!(tree.query_nostop(&chars("ab")), None);
    assert_eq!(tree.query_nostop(&chars("a")), Some(true));
    assert!(!tree.remove(&chars("zz")));
    assert!(!tree.remove(&chars("")));
    assert_eq!(tree.count(), 1);
}

#[test]
fn empty_sequence_root() {
    let mut tree: TrieTree<char> = TrieTree::new();
    assert!(!tree.root().stop());
    assert!(tree.insert(&[]));
    assert!(tree.root().stop());
    assert!(tree.root().is_stop());
    assert!(tree.query(&[]));
    assert_eq!(tree.count(), 1);
    assert!(!tree.insert(&[]));
    assert_eq!(tree.count(), 1);
    assert_eq!(drain(tree.iter()), vec![Vec::<char>::new()]);
    assert!(tree.remove(&[]));
    assert!(!tree.query(&[]));
    assert_eq!(tree.count(), 0);
}

#[test]
fn insert_then_query_twice() {
    let mut tree = TrieTree::new();
    assert!(!tree.query(&[3u64, 1, 4]));
    assert!(tree.insert(&[3u64, 1, 4]));
    assert!(tree.query(&[3u64, 1, 4]));
    assert_eq!(tree.count(), 1);
    assert!(!tree.insert(&[3u64, 1, 4]));
    assert_eq!(tree.count(), 1);
    assert!(!tree.query(&[3u64, 1]));
}

#[test]
fn remove_only_once() {
    let mut tree = TrieTree::new();
    assert!(tree.insert(&[-1i64, 0, 1]));
    assert!(tree.insert(&[-1i64, 0]));
    assert!(tree.remove(&[-1i64, 0, 1]));
    assert!(!tree.query(&[-1i64, 0, 1]));
    assert!(!tree.remove(&[-1i64, 0, 1]));
    assert!(tree.query(&[-1i64, 0]));
    assert_eq!(tree.count(), 1);
}

#[test]
fn count_matches_enumeration() {
    let mut tree = TrieTree::new();
    let words = ["to", "tea", "ted", "ten", "i", "in", "inn", "", "tea"];
    let mut expected = 0usize;
    for w in words {
        if tree.insert(&chars(w)) {
            expected += 1;
        }
        assert_eq!(tree.count(), expected);
    }
    assert_eq!(expected, 8);
    assert!(tree.remove(&chars("in")));
    assert!(!tree.remove(&chars("in")));
    assert!(tree.remove(&chars("")));
    assert_eq!(tree.count(), 6);
    let all = drain(tree.iter());
    assert_eq!(all.len(), tree.count());
    assert_eq!(
        all,
        vec![chars("i"), chars("inn"), chars("tea"), chars("ted"), chars("ten"), chars("to")]
    );
}

#[test]
fn equality_ignores_insertion_order() {
    let seqs: [&[u32]; 5] = [&[1, 2, 3], &[1, 2], &[4], &[], &[1, 3, 5]];
    let mut a = TrieTree::new();
    let mut b = TrieTree::new();
    for s in seqs {
        a.insert(s);
    }
    for s in seqs.iter().rev() {
        b.insert(s);
    }
    assert!(a == b);
    assert!(a.remove(&[1, 2]));
    assert!(a != b);
    assert!(a.insert(&[1, 2]));
    assert!(a == b);
    assert!(a.insert(&[9]));
    assert!(a != b);
    let empty1: TrieTree<u32> = TrieTree::new();
    let empty2: TrieTree<u32> = TrieTree::default();
    assert!(empty1 == empty2);
}

#[test]
fn node_equality_and_children() {
    let mut n1: TrieNode<char> = TrieNode::new();
    let mut n2: TrieNode<char> = TrieNode::default();
    assert!(n1.insert(&chars("ab")));
    assert!(n1.insert(&chars("b")));
    assert!(n2.insert(&chars("b")));
    assert!(n2.insert(&chars("ab")));
    assert!(n1.eq(&n2));
    assert!(n1.is_wf());
    assert!(n1.get_child(&'a').is_some());
    assert!(n1.get_child(&'c').is_none());
    assert!(n1.query_node(&chars("ab")).unwrap().stop());
    assert!(!n1.query_node(&chars("a")).unwrap().stop());
    assert!(n1.query_node(&chars("ba")).is_none());
    let a = n1.remove_child(&'a').unwrap();
    assert!(a.query(&chars("b")));
    assert!(!n1.query(&chars("ab")));
    assert!(n1.query(&chars("b")));
    assert!(n1.remove_child(&'a').is_none());
    assert!(!n1.eq(&n2));
    assert!(n2.remove_branch(&chars("ab")));
    assert!(n1.eq(&n2));
}

#[test]
fn iterator_step_forms() {
    let mut tree = TrieTree::new();
    tree.insert(&[1, 2]);
    assert_eq!(tree.iter().next_ref().unwrap(), &vec![&1, &2]);
    let mut tree2 = TrieTree::new();
    tree2.insert(&[0, 1, 2]);
    assert_eq!(
        tree2.iter().next_op(|x| x.iter().map(|n| **n + 2).collect::<Vec<_>>()).unwrap(),
        vec![2, 3, 4]
    );
    let mut it = tree2.iter();
    assert!(it.next().is_some());
    assert!(it.next().is_none());
    assert!(it.next_ref().is_none());
    assert!(it.next_op(|x| x.len()).is_none());
}

#[test]
fn shrink_keeps_content() {
    let mut tree = TrieTree::new();
    for w in ["abc", "bcd", "ab", "x"] {
        tree.insert(&chars(w));
    }
    let before = tree.clone();
    tree.shrink_to_fit();
    assert!(tree == before);
    assert_eq!(tree.count(), 4);
    assert!(tree.query(&chars("ab")));
}

#[test]
fn clone_is_independent() {
    let mut tree = TrieTree::new();
    tree.insert(&chars("ab"));
    let copy = tree.clone();
    tree.insert(&chars("cd"));
    tree.remove(&chars("ab"));
    assert!(copy.query(&chars("ab")));
    assert!(!copy.query(&chars("cd")));
    assert_eq!(copy.count(), 1);
    tree.clear();
    assert_eq!(tree.count(), 0);
    assert!(!tree.query(&chars("cd")));
    assert!(tree.insert(&chars("cd")));
}

#[test]
fn compact_and_pretty_text() {
    let mut tree = TrieTree::new();
    tree.insert(&chars("ab"));
    assert_eq!(
        tree.debug_text(false, key_debug),
        "TrieTree { count: 1, root: (/):{('a'):{['b']:{}}} }"
    );
    let mut two = TrieTree::new();
    two.insert(&[7u8]);
    two.insert(&[]);
    assert_eq!(two.debug_text(false, key_debug), "TrieTree { count: 2, root: [/]:{[7]:{}} }");
    assert_eq!(two.root().debug_text(true, key_debug), "[/]: {\n    [7]: {}\n}");
}

#[test]
fn extend_and_from_seqs() {
    let seqs = vec![chars("ab"), chars("b"), chars("ab"), chars("")];
    let tree = TrieTree::from_seqs(&seqs);
    assert_eq!(tree.count(), 3);
    assert!(tree.query(&chars("ab")));
    assert!(tree.query(&chars("b")));
    assert!(tree.query(&chars("")));
    let mut other = TrieTree::new();
    other.insert(&chars("zz"));
    other.extend(&[chars("b"), chars("ab")]);
    assert_eq!(other.count(), 3);
    other.extend(&[chars(""), chars("zz")]);
    assert_eq!(other.count(), 4);
    assert!(other.remove(&chars("zz")));
    assert!(other == tree);
}

#[test]
fn node_copy_is_deep() {
    let mut n: TrieNode<u16> = TrieNode::new();
    n.insert(&[1, 2, 3]);
    n.insert(&[1, 4]);
    let copy = n.clone();
    assert!(copy.eq(&n));
    assert!(n.remove_branch(&[1, 4]));
    assert!(copy.query(&[1, 4]));
    assert!(!n.query(&[1, 4]));
    assert!(!copy.eq(&n));
    assert!(copy.is_wf());
}

#[test]
fn count_text_has_all_digits() {
    let mut tree = TrieTree::new();
    for i in 0u8..12 {
        tree.insert(&[i]);
    }
    let text = tree.debug_text(false, key_debug);
    assert!(text.starts_with("TrieTree { count: 12, root: (/):{"));
    assert!(text.ends_with("} }"));
    assert!(text.contains("[11]:{}"));
    assert!(text.contains("[0]:{}"));
}

#[test]
fn terminal_start_comes_first() {
    let mut tree = TrieTree::new();
    tree.insert(&chars("ab"));
    tree.insert(&chars(""));
    tree.insert(&chars("a"));
    let mut it = tree.iter();
    assert_eq!(it.next().unwrap(), Vec::<&char>::new());
    let mut from_a = tree.query_iter(&chars("a")).unwrap();
    assert_eq!(from_a.next_ref().unwrap(), &Vec::<&char>::new());
    assert_eq!(from_a.next().unwrap(), vec![&'b']);
    assert!(from_a.next().is_none());
}
