use fast_trie_tree::{Iter, TrieNode, TrieTree};

const TEST_NUMS: [&[i32]; 59] = [
    &[69, 30, 63, 30, 59, 75, 13, 79, 39],
    &[7, 13, 90, 64, 37, 8, 97, 43, 60],
    &[47, 90, 33, 56, 91, 58, 19, 26],
    &[11, 92, 30, 24, 64, 31, 50, 67],
    &[16, 44, 3, 0, 50, 23, 16, 26],
    &[18, 27, 74, 46, 15, 68, 45],
    &[89, 60, 35, 24, 14, 22, 83],
    &[80, 36, 79, 55, 77, 16, 55],
    &[15, 17, 51, 40, 76, 35, 98],
    &[88, 91, 91, 31, 65, 53, 44],
    &[20, 45, 19, 81, 54, 61, 49],
    &[95, 51, 95, 54, 41, 48, 27],
    &[90, 15, 27, 5, 42, 78, 65],
    &[5, 58, 26, 72, 29, 99, 28],
    &[12, 81, 29, 38, 13, 30, 7],
    &[47, 35, 49, 4, 54, 25, 89],
    &[81, 83, 20, 8, 9, 38, 79],
    &[26, 38, 29, 88, 25, 59],
    &[62, 29, 83, 91, 38, 68],
    &[53, 83, 18, 96, 22, 87],
    &[88, 83, 28, 66, 20, 32],
    &[22, 38, 4, 47, 36, 15],
    &[90, 43, 3, 66, 89, 65],
    &[17, 38, 70, 70, 24],
    &[70, 15, 51, 85, 4],
    &[51, 43, 3, 57, 16],
    &[93, 38, 75, 73, 9],
    &[87, 5, 35, 88, 64],
    &[22, 93, 78, 41],
    &[33, 95, 27, 66],
    &[99, 88, 72, 98],
    &[86, 10, 17, 63],
    &[1, 3, 4, 6],
    &[1, 3, 9, 5],
    &[96, 57, 40],
    &[41, 78, 24],
    &[69, 46, 73],
    &[74, 82, 80],
    &[41, 93, 56],
    &[68, 74, 30],
    &[73, 97, 14],
    &[0, 68, 72],
    &[92, 9, 87],
    &[5, 83, 22],
    &[8, 79, 82],
    &[2, 7, 8],
    &[29, 51],
    &[25, 92],
    &[79, 64],
    &[51, 33],
    &[30, 90],
    &[43],
    &[15],
    &[21],
    &[55],
    &[37],
    &[58],
    &[88],
    &[],
];

fn cs(s: &str) -> Vec<char> {
    s.chars().collect()
}

fn collect_all<'a, T>(mut it: Iter<'a, T>) -> Vec<Vec<&'a T>> {
    let mut out = Vec::new();
    while let Some(v) = it.next() {
        out.push(v);
    }
    out
}

fn tree_of<T: fast_trie_tree::TrieKey>(seqs: &[&[T]]) -> TrieTree<T> {
    let mut tree = TrieTree::new();
    for s in seqs {
        tree.insert(s);
    }
    tree
}

#[test]
fn count_test() {
    let mut tree = TrieTree::new();
    assert_eq!(tree.count(), 0);
    assert!(tree.insert(&cs("abc")));
    assert_eq!(tree.count(), 1);
    assert!(tree.insert(&cs("ace")));
    assert_eq!(tree.count(), 2);
    assert!(tree.remove(&cs("abc")));
    assert_eq!(tree.count(), 1);
    assert!(!tree.remove(&cs("abc")));
    assert_eq!(tree.count(), 1);
    assert!(tree.remove(&cs("ace")));
    assert_eq!(tree.count(), 0);
    assert!(!tree.remove(&cs("ace")));
    assert_eq!(tree.count(), 0);
}

#[test]
fn empty_test() {
    let mut tree = TrieTree::new();
    assert_eq!(tree.query_nostop(&cs("")), Some(false));
    assert!(!tree.query(&cs("")));
    assert_eq!(tree.count(), 0);
    tree.insert(&cs(""));
    assert_eq!(tree.count(), 1);
    assert!(tree.query(&cs("")));
}

#[test]
fn insert_test() {
    let mut tree = TrieTree::new();
    let strs = ["a", "abc", "ab", "def", "f", ""];
    for (i, str) in strs.into_iter().enumerate() {
        assert_eq!(tree.count(), i);
        assert!(tree.insert(&cs(str)));
        assert_eq!(tree.count(), i + 1);
    }
    for str in strs {
        assert!(tree.query(&cs(str)));
        assert_eq!(tree.query_nostop(&cs(str)), Some(true));
    }
    for str in strs {
        assert!(tree.remove(&cs(str)));
        assert_eq!(tree.query(&cs(str)), false);
        assert_ne!(tree.query_nostop(&cs(str)), Some(true));
    }
    assert_eq!(tree.count(), 0);
}

#[test]
fn other_type_test() {
    let arr: &[&[i32]] = &TEST_NUMS;
    let mut tree = TrieTree::new();
    for (i, nums) in arr.iter().enumerate() {
        assert_eq!(tree.count(), i);
        assert!(tree.insert(nums));
        assert_eq!(tree.count(), i + 1);
    }
    for nums in arr {
        assert!(tree.query(nums));
        assert_eq!(tree.query_nostop(nums), Some(true));
    }
    assert_eq!(tree.count(), arr.len());
    for nums in arr {
        assert!(tree.remove(nums));
        assert_eq!(tree.query(nums), false);
        assert_ne!(tree.query_nostop(nums), Some(true));
    }
    assert_eq!(tree.count(), 0);
}

fn check_same(vals: &[Vec<&i32>], origin_nums: &[&[i32]]) {
    assert_eq!(vals.len(), origin_nums.len());
    for (a, b) in vals.iter().zip(origin_nums.iter()) {
        assert_eq!(&a.iter().map(|x| **x).collect::<Vec<_>>()[..], *b);
    }
}

#[test]
fn iter_test() {
    let mut tree = TrieTree::new();
    for nums in TEST_NUMS {
        assert!(tree.insert(nums))
    }
    for nums in TEST_NUMS {
        assert!(tree.query(nums))
    }
    let mut vals: Vec<_> = collect_all(tree.iter());
    vals.sort();
    let mut origin_nums = Vec::from(TEST_NUMS);
    origin_nums.sort();
    check_same(&vals, &origin_nums);
    let mut tree2 = tree_of(&TEST_NUMS);
    for nums in TEST_NUMS.into_iter().take(5).chain(TEST_NUMS.into_iter().rev().take(4)) {
        assert!(tree2.remove(nums));
        let pos = origin_nums.iter().position(|x| *x == nums).unwrap();
        origin_nums.swap_remove(pos);
    }
    origin_nums.sort();
    let mut vals2: Vec<_> = collect_all(tree2.iter());
    vals2.sort();
    assert_eq!(tree2.count(), vals2.len());
    check_same(&vals2, &origin_nums);
}

#[test]
fn equals_test() {
    let tree1 = tree_of::<i32>(&[&[1, 2, 3], &[1, 3, 5]]);
    let mut tree2 = tree_of::<i32>(&[&[1, 2, 3], &[1, 3, 5]]);
    assert!(tree1 == tree2);
    tree2.insert(&[1, 2, 4]);
    assert!(tree1 != tree2);
    tree2.remove(&[1, 2, 3]);
    assert!(tree1 != tree2);
    tree2.remove(&[1, 2, 4]);
    assert!(tree1 != tree2);
    tree2.insert(&[1, 2, 3]);
    assert!(tree1 == tree2);

    let rev: Vec<&[i32]> = TEST_NUMS.into_iter().rev().collect();
    let mut tree1 = tree_of(&TEST_NUMS);
    let tree2 = tree_of(&rev);
    assert!(tree1 == tree2);

    for item in TEST_NUMS {
        tree1.remove(item);
        assert!(tree1 != tree2);
        tree1.insert(item);
        assert!(tree1 == tree2);
    }
}

fn debug_key<T: std::fmt::Debug>(k: &T) -> String {
    format!("{:?}", k)
}

#[test]
fn example() {
    let mut ctree: TrieTree<char> = TrieTree::new();
    assert!(ctree.insert(&cs("abc")));
    assert_eq!(
        ctree.debug_text(true, debug_key),
        [
            "TrieTree {\n",
            "    count: 1,\n",
            "    root: (/): {\n",
            "        ('a'): {\n",
            "            ('b'): {\n",
            "                ['c']: {}\n",
            "            }\n",
            "        }\n",
            "    },\n",
            "}"
        ]
        .concat()
    );
    assert_eq!(collect_all(ctree.query_iter(&cs("a")).unwrap()), [[&'b', &'c']]);
    assert!(ctree.insert(&cs("ace")));
    assert!(ctree.query(&cs("ace")));
    assert!(ctree.query(&cs("abc")));
    assert!(!ctree.query(&cs("ab")));

    let byte_tree = tree_of::<u8>(&[&[0u8, 2, 3, 8], &[4, 5, 7, 9], &[4, 2, 6, 1]]);
    assert_eq!(byte_tree.count(), 3);
    assert!(byte_tree.query(&[0, 2, 3, 8]));
    assert!(byte_tree.query(&[4, 5, 7, 9]));
    assert!(byte_tree.query(&[4, 2, 6, 1]));
    let mut res = collect_all(byte_tree.query_iter(&[4]).unwrap());
    res.sort();
    assert_eq!(res, [[&2, &6, &1], [&5, &7, &9]]);
    assert_eq!(byte_tree.count(), 3);
}

#[test]
fn tree_from_node() {
    let tree: TrieTree<i32> = tree_of(&TEST_NUMS);
    let count = tree.count();
    let root: TrieNode<_> = tree.clone().into();
    let new_tree: TrieTree<_> = TrieTree::from_root(root).unwrap();
    assert_eq!(new_tree.count(), count);
    assert!(new_tree == tree);
}
