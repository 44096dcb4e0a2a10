use simple_file_compressor::fenwick::FenwickTree;

#[test]
fn fenwick_tree_sum() {
    let freq = vec![(b'A', 1), (b'B', 2), (b'C', 3), (b'D', 4)];
    let tree = FenwickTree::new(freq);

    assert_eq!(10, tree.sum(3));
    assert_eq!(6, tree.sum(2));
    assert_eq!(3, tree.sum(1));
    assert_eq!(1, tree.sum(0));
}

#[test]
fn fenwick_tree_get_bounds() {
    let freq = vec![(b'A', 1), (b'B', 2), (b'C', 3), (b'D', 4)];
    let tree = FenwickTree::new(freq);

    assert_eq!((0, 1), tree.get_bounds(b'A'));
    assert_eq!((1, 3), tree.get_bounds(b'B'));
    assert_eq!((3, 6), tree.get_bounds(b'C'));
    assert_eq!((6, 10), tree.get_bounds(b'D'));
}

#[test]
fn fenwick_tree_update() {
    let freq = vec![(b'A', 1), (b'B', 2), (b'C', 3), (b'D', 4)];
    let mut tree = FenwickTree::new(freq);

    tree.add_count(b'A');
    assert_eq!((0, 2), tree.get_bounds(b'A'));
    assert_eq!((2, 4), tree.get_bounds(b'B'));
    assert_eq!((4, 7), tree.get_bounds(b'C'));
    assert_eq!((7, 11), tree.get_bounds(b'D'));

    tree.add_count(b'B');
    assert_eq!((0, 2), tree.get_bounds(b'A'));
    assert_eq!((2, 5), tree.get_bounds(b'B'));
    assert_eq!((5, 8), tree.get_bounds(b'C'));
    assert_eq!((8, 12), tree.get_bounds(b'D'));
}

#[test]
fn fenwick_tree_search_range() {
    let freq = vec![(b'A', 1), (b'B', 2), (b'C', 3), (b'D', 4)];
    let tree = FenwickTree::new(freq);

    assert_eq!(Some(b'A'), tree.search_range(0));

    assert_eq!(Some(b'B'), tree.search_range(1));
    assert_eq!(Some(b'B'), tree.search_range(2));

    assert_eq!(Some(b'C'), tree.search_range(3));
    assert_eq!(Some(b'C'), tree.search_range(4));
    assert_eq!(Some(b'C'), tree.search_range(5));
    assert_eq!(Some(b'D'), tree.search_range(6));
    assert_eq!(Some(b'D'), tree.search_range(7));
    assert_eq!(Some(b'D'), tree.search_range(8));
    assert_eq!(Some(b'D'), tree.search_range(9));
}

#[test]
fn fenwick_tree_search_past_total() {
    let tree = FenwickTree::new(vec![(b'A', 1), (b'B', 2)]);
    assert_eq!(None, tree.search_range(3));
    assert_eq!(3, tree.total_sum());
    assert_eq!(3, tree.get_total_count());
    assert_eq!(2, tree.len());
}

#[test]
fn fenwick_tree_reduce_and_index() {
    let mut tree = FenwickTree::new(vec![(b'A', 1), (b'B', 2), (b'C', 3)]);
    tree.reduce_count(b'B');
    assert_eq!((1, 2), tree.get_bounds(b'B'));
    assert_eq!(Some(2), tree.find_index(4));
    assert_eq!(None, tree.find_index(5));
}
