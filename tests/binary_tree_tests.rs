use binary_tree::{BinaryTree, BinaryTreeNode, Tree};

fn s(text: &str) -> String {
    text.to_string()
}

#[test]
fn basic_put_get() {
    let mut bin_tree: BinaryTree<String, String> = BinaryTree::new();
    bin_tree.put("2".to_string(), "goodbye".to_string());
    bin_tree.put("1".to_string(), "hello".to_string());
    bin_tree.put("3".to_string(), "cherry".to_string());

    assert_eq!(&"hello".to_string(), bin_tree.get(&"1".to_string()).unwrap());
    assert_eq!(&"goodbye".to_string(), bin_tree.get(&"2".to_string()).unwrap());
    assert_eq!(&"cherry".to_string(), bin_tree.get(&"3".to_string()).unwrap());
}

#[test]
fn put_get_remove() {
    let mut bin_tree: BinaryTree<String, String> = BinaryTree::new();
    bin_tree.put("2".to_string(), "goodbye".to_string());
    bin_tree.put("1".to_string(), "hello".to_string());
    bin_tree.put("3".to_string(), "cherry".to_string());

    assert_eq!(&"hello".to_string(), bin_tree.get(&"1".to_string()).unwrap());

    assert_eq!(Some("hello".to_string()), bin_tree.remove(&"1".to_string()));
}

#[test]
fn remove_root() {
    let mut bin_tree: BinaryTree<String, String> = BinaryTree::new();
    bin_tree.put("2".to_string(), "goodbye".to_string());
    bin_tree.put("1".to_string(), "hello".to_string());
    bin_tree.put("3".to_string(), "cherry".to_string());

    assert_eq!(Some("goodbye".to_string()), bin_tree.remove(&"2".to_string()));

    assert_eq!(None, bin_tree.get(&"2".to_string()));
    assert_eq!(&"hello".to_string(), bin_tree.get(&"1".to_string()).unwrap());
    assert_eq!(&"cherry".to_string(), bin_tree.get(&"3".to_string()).unwrap());
}

#[test]
fn remove_subtree() {
    let mut bin_tree: BinaryTree<String, String> = BinaryTree::new();
    bin_tree.put("2".to_string(), "goodbye".to_string());
    bin_tree.put("1".to_string(), "hello".to_string());
    bin_tree.put("7".to_string(), "cherry".to_string());
    bin_tree.put("4".to_string(), "doot".to_string());
    bin_tree.put("9".to_string(), "uber".to_string());

    assert_eq!(Some("cherry".to_string()), bin_tree.remove(&"7".to_string()));
    assert_eq!(None, bin_tree.get(&"7".to_string()));

    assert_eq!(&"hello".to_string(), bin_tree.get(&"1".to_string()).unwrap());
    assert_eq!(&"goodbye".to_string(), bin_tree.get(&"2".to_string()).unwrap());
    assert_eq!(&"doot".to_string(), bin_tree.get(&"4".to_string()).unwrap());
    assert_eq!(&"uber".to_string(), bin_tree.get(&"9".to_string()).unwrap());
}

#[test]
fn empty_tree_finds_nothing() {
    let mut tree: BinaryTree<u64, String> = BinaryTree::new();
    assert!(tree.is_empty());
    assert_eq!(None, tree.get(&5));
    assert_eq!(None, tree.remove(&5));
    assert!(tree.is_empty());
}

#[test]
fn removing_the_only_key_empties_the_tree() {
    let mut tree: BinaryTree<u64, String> = BinaryTree::new();
    tree.put(4, s("four"));
    assert!(!tree.is_empty());
    assert_eq!(Some(s("four")), tree.remove(&4));
    assert!(tree.is_empty());
    assert_eq!(None, tree.get(&4));
}

#[test]
fn clear_empties_the_tree() {
    let mut tree: BinaryTree<u64, u64> = BinaryTree::new();
    tree.put(3, 30);
    tree.put(1, 10);
    tree.put(8, 80);
    tree.clear();
    assert!(tree.is_empty());
    assert_eq!(None, tree.get(&3));
    tree.clear();
    assert!(tree.is_empty());
}

#[test]
fn last_put_wins() {
    let mut tree: BinaryTree<u64, String> = BinaryTree::new();
    tree.put(6, s("first"));
    tree.put(2, s("two"));
    tree.put(6, s("second"));
    tree.put(9, s("nine"));
    tree.put(2, s("deux"));
    assert_eq!(&s("second"), tree.get(&6).unwrap());
    assert_eq!(&s("deux"), tree.get(&2).unwrap());
    assert_eq!(&s("nine"), tree.get(&9).unwrap());
    assert_eq!(None, tree.get(&7));
}

#[test]
fn overwrite_keeps_a_single_entry() {
    let mut tree: BinaryTree<u64, String> = BinaryTree::new();
    tree.put(5, s("v1"));
    tree.put(5, s("v2"));
    assert_eq!(&s("v2"), tree.get(&5).unwrap());
    assert_eq!(Some(s("v2")), tree.remove(&5));
    assert!(tree.is_empty());
}

#[test]
fn removal_keeps_other_keys() {
    let mut tree: BinaryTree<u64, u64> = BinaryTree::new();
    for k in [50u64, 30, 70, 20, 40, 60, 80, 35, 45] {
        tree.put(k, k * 10);
    }
    assert_eq!(Some(300), tree.remove(&30));
    assert_eq!(None, tree.get(&30));
    for k in [50u64, 70, 20, 40, 60, 80, 35, 45] {
        assert_eq!(Some(&(k * 10)), tree.get(&k));
    }
}

#[test]
fn removal_with_one_child_promotes_it() {
    let mut tree: BinaryTree<u64, u64> = BinaryTree::new();
    tree.put(10, 1);
    tree.put(5, 2);
    tree.put(3, 3);
    assert_eq!(Some(2), tree.remove(&5));
    assert_eq!(None, tree.get(&5));
    assert_eq!(Some(&3), tree.get(&3));
    assert_eq!(Some(&1), tree.get(&10));
}

#[test]
fn larger_key_two_levels_down_is_not_removed() {
    let mut tree: BinaryTree<u64, String> = BinaryTree::new();
    tree.put(2, s("two"));
    tree.put(7, s("seven"));
    tree.put(9, s("nine"));
    assert_eq!(None, tree.remove(&9));
    assert_eq!(&s("nine"), tree.get(&9).unwrap());
    assert_eq!(Some(s("seven")), tree.remove(&7));
    assert_eq!(None, tree.get(&7));
    assert_eq!(&s("nine"), tree.get(&9).unwrap());
}

#[test]
fn deep_successor_leaves_its_old_copy_behind() {
    let mut tree: BinaryTree<u64, String> = BinaryTree::new();
    tree.put(5, s("five"));
    tree.put(3, s("three"));
    tree.put(10, s("ten"));
    tree.put(8, s("eight"));
    tree.put(12, s("twelve"));
    assert_eq!(Some(s("five")), tree.remove(&5));
    assert_eq!(None, tree.get(&5));
    assert_eq!(&s("eight"), tree.get(&8).unwrap());
    tree.put(8, s("new eight"));
    assert_eq!(Some(s("new eight")), tree.remove(&8));
    assert_eq!(&s("eight"), tree.get(&8).unwrap());
    assert_eq!(&s("three"), tree.get(&3).unwrap());
    assert_eq!(&s("ten"), tree.get(&10).unwrap());
    assert_eq!(&s("twelve"), tree.get(&12).unwrap());
}

#[test]
fn missing_key_removal_changes_nothing() {
    let mut tree: BinaryTree<u64, u64> = BinaryTree::new();
    tree.put(4, 40);
    tree.put(2, 20);
    tree.put(6, 60);
    assert_eq!(None, tree.remove(&1));
    assert_eq!(None, tree.remove(&5));
    assert_eq!(Some(&40), tree.get(&4));
    assert_eq!(Some(&20), tree.get(&2));
    assert_eq!(Some(&60), tree.get(&6));
}

#[test]
fn node_find_and_append() {
    let mut node = BinaryTreeNode::new(s("m"), 1u64);
    node.append(BinaryTreeNode::new(s("c"), 2));
    node.append(BinaryTreeNode::new(s("x"), 3));
    node.append(BinaryTreeNode::new(s("m"), 4));
    assert_eq!(Some(&4), node.find(&s("m")));
    assert_eq!(Some(&2), node.find(&s("c")));
    assert_eq!(Some(&3), node.find(&s("x")));
    assert_eq!(None, node.find(&s("a")));
}

#[test]
fn second_removal_follows_the_new_structure() {
    let mut tree: BinaryTree<u64, u64> = BinaryTree::new();
    for k in [2u64, 1, 7, 4, 9] {
        tree.put(k, k * 10);
    }
    assert_eq!(Some(70), tree.remove(&7));
    assert_eq!(Some(90), tree.remove(&9));
    assert_eq!(None, tree.get(&9));
    assert_eq!(Some(&40), tree.get(&4));
    assert_eq!(Some(&10), tree.get(&1));
    assert_eq!(Some(&20), tree.get(&2));
}
