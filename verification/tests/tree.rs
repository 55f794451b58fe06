use chunked_bytes::chunk_tree::{ChunkTree, CHUNK_SIZE};
use chunked_bytes::error::Error;
use std::sync::Arc;

fn pattern(len: usize) -> Vec<u8> {
    (0..len).map(|i| (i % 251) as u8).collect()
}

fn leaf_len(node: &ChunkTree) -> Option<usize> {
    match node {
        ChunkTree::Leaf { data } => Some(data.len()),
        ChunkTree::Internal { .. } => None,
    }
}

fn children<'t, 'a>(
    node: &'t ChunkTree<'a>,
) -> (&'t Arc<ChunkTree<'a>>, &'t Arc<ChunkTree<'a>>, &'t Arc<ChunkTree<'a>>, usize) {
    match node {
        ChunkTree::Internal { left, mid, right, size } => (left, mid, right, *size),
        ChunkTree::Leaf { .. } => panic!("an internal node was expected"),
    }
}

fn max_leaf(node: &ChunkTree) -> usize {
    match node {
        ChunkTree::Leaf { data } => data.len(),
        ChunkTree::Internal { left, mid, right, .. } => {
            max_leaf(left).max(max_leaf(mid)).max(max_leaf(right))
        }
    }
}

fn sizes_add_up(node: &ChunkTree) -> bool {
    match node {
        ChunkTree::Leaf { .. } => true,
        ChunkTree::Internal { left, mid, right, size } => {
            sizes_add_up(left)
                && sizes_add_up(mid)
                && sizes_add_up(right)
                && *size == left.len() + mid.len() + right.len()
        }
    }
}

#[test]
fn test_empty_tree() {
    let tree = ChunkTree::new();
    assert!(tree.is_empty());
    assert_eq!(tree.len(), 0);
    assert_eq!(tree.collect_bytes(), vec![]);
}

#[test]
fn test_from_slice() {
    let data = b"Hello World!";
    let tree = ChunkTree::from_slice(data);
    assert!(!tree.is_empty());
    assert_eq!(tree.len(), data.len());
    assert_eq!(tree.collect_bytes(), data);
}

#[test]
fn test_insert_middle() {
    let tree = ChunkTree::from_slice(b"Hello World!");
    let tree = tree.insert(5, b" beautiful").unwrap();
    assert_eq!(tree.collect_bytes(), b"Hello beautiful World!");
}

#[test]
fn test_insert_start() {
    let tree = ChunkTree::from_slice(b"World!");
    let tree = tree.insert(0, b"Hello ").unwrap();
    assert_eq!(tree.collect_bytes(), b"Hello World!");
}

#[test]
fn test_insert_end() {
    let tree = ChunkTree::from_slice(b"Hello");
    let tree = tree.insert(5, b" World!").unwrap();
    assert_eq!(tree.collect_bytes(), b"Hello World!");
}

#[test]
fn test_remove_middle() {
    let tree = ChunkTree::from_slice(b"Hello beautiful World!");
    let tree = tree.remove(5..15).unwrap();
    assert_eq!(tree.collect_bytes(), b"Hello World!");
}

#[test]
fn test_remove_start() {
    let tree = ChunkTree::from_slice(b"Hello World!");
    let tree = tree.remove(0..6).unwrap();
    assert_eq!(tree.collect_bytes(), b"World!");
}

#[test]
fn test_remove_end() {
    let tree = ChunkTree::from_slice(b"Hello World!");
    let tree = tree.remove(5..12).unwrap();
    assert_eq!(tree.collect_bytes(), b"Hello");
}

#[test]
#[should_panic]
fn test_insert_out_of_bounds() {
    let tree = ChunkTree::from_slice(b"Hello");
    tree.insert(6, b" World!").unwrap();
}

#[test]
#[should_panic]
fn test_remove_invalid_range() {
    let tree = ChunkTree::from_slice(b"Hello");
    tree.remove(3..6).unwrap();
}

#[test]
fn insert_past_the_end_is_index_out_of_bounds() {
    let tree = ChunkTree::from_slice(b"Hello");
    assert_eq!(tree.insert(6, b" World!").err(), Some(Error::IndexOutOfBounds));
    assert_eq!(tree.insert(usize::MAX, b"").err(), Some(Error::IndexOutOfBounds));
    assert_eq!(tree.collect_bytes(), b"Hello");
}

#[test]
fn remove_past_the_end_is_index_out_of_bounds() {
    let tree = ChunkTree::from_slice(b"Hello");
    assert_eq!(tree.remove(3..6).err(), Some(Error::IndexOutOfBounds));
    assert_eq!(tree.remove(6..7).err(), Some(Error::IndexOutOfBounds));
    assert_eq!(tree.collect_bytes(), b"Hello");
}

#[test]
fn remove_of_a_reversed_range_is_invalid_range() {
    let tree = ChunkTree::from_slice(b"Hello");
    assert_eq!(tree.remove(3..2).err(), Some(Error::InvalidRange));
    assert_eq!(tree.remove(9..7).err(), Some(Error::InvalidRange));
    assert_eq!(tree.collect_bytes(), b"Hello");
}

#[test]
fn remove_past_the_end_of_a_deep_tree_is_refused_at_the_root() {
    let data = pattern(5000);
    let tree = ChunkTree::from_slice(&data);
    assert_eq!(tree.remove(4999..5001).err(), Some(Error::IndexOutOfBounds));
    assert_eq!(tree.remove(5001..5001).err(), Some(Error::IndexOutOfBounds));
    assert_eq!(tree.collect_bytes(), data);
}

#[test]
fn build_of_2000_bytes_is_two_leaves_around_an_empty_one() {
    let data = pattern(2000);
    let tree = ChunkTree::from_slice(&data);
    assert_eq!(tree.len(), 2000);
    let (left, mid, right, size) = children(&tree);
    assert_eq!(size, 2000);
    assert_eq!(leaf_len(left), Some(1000));
    assert_eq!(leaf_len(mid), Some(0));
    assert_eq!(leaf_len(right), Some(1000));
    assert!(leaf_len(left).unwrap() <= 1024 && leaf_len(right).unwrap() <= 1024);
    assert_eq!(tree.collect_bytes(), data);
}

#[test]
fn build_keeps_a_chunk_sized_input_in_one_leaf() {
    let data = pattern(CHUNK_SIZE);
    let tree = ChunkTree::from_slice(&data);
    assert_eq!(leaf_len(&tree), Some(1024));
    let data = pattern(CHUNK_SIZE + 1);
    let tree = ChunkTree::from_slice(&data);
    let (left, _, right, size) = children(&tree);
    assert_eq!((leaf_len(left), leaf_len(right), size), (Some(512), Some(513), 1025));
}

#[test]
fn build_round_trips_and_bounds_every_leaf() {
    for len in [0usize, 1, 1023, 1024, 1025, 2048, 2049, 4097, 10_000] {
        let data = pattern(len);
        let tree = ChunkTree::from_slice(&data);
        assert_eq!(tree.collect_bytes(), data);
        assert_eq!(tree.len(), len);
        assert_eq!(tree.is_empty(), len == 0);
        assert!(max_leaf(&tree) <= CHUNK_SIZE);
        assert!(sizes_add_up(&tree));
    }
}

#[test]
fn collect_bytes_into_appends_to_what_is_there() {
    let tree = ChunkTree::from_slice(b"World!");
    let mut out = b"Hello ".to_vec();
    tree.collect_bytes_into(&mut out);
    assert_eq!(out, b"Hello World!");
}

#[test]
fn insert_splices_at_every_index() {
    let data = pattern(3000);
    let extra = b"0123456789";
    let tree = ChunkTree::from_slice(&data);
    for index in [0usize, 1, 999, 1500, 1501, 2999, 3000] {
        let edited = tree.insert(index, extra).unwrap();
        let mut expected = data[..index].to_vec();
        expected.extend_from_slice(extra);
        expected.extend_from_slice(&data[index..]);
        assert_eq!(edited.collect_bytes(), expected);
        assert_eq!(edited.len(), 3010);
        assert!(sizes_add_up(&edited));
        assert_eq!(tree.collect_bytes(), data);
    }
}

#[test]
fn insert_of_a_long_run_is_split_into_chunks() {
    let extra = pattern(5000);
    let tree = ChunkTree::from_slice(b"ab");
    let edited = tree.insert(1, &extra).unwrap();
    assert_eq!(edited.len(), 5002);
    assert!(max_leaf(&edited) <= CHUNK_SIZE);
    let (left, mid, right, _) = children(&edited);
    assert_eq!((left.len(), mid.len(), right.len()), (1, 5000, 1));
}

#[test]
fn insert_descends_left_on_a_boundary() {
    let data = pattern(2000);
    let tree = ChunkTree::from_slice(&data);
    let (old_left, old_mid, old_right, _) = children(&tree);
    let edited = tree.insert(1000, b"x").unwrap();
    let (left, mid, right, size) = children(&edited);
    assert_eq!(size, 2001);
    assert_eq!(left.len(), 1001);
    assert!(Arc::ptr_eq(mid, old_mid));
    assert!(Arc::ptr_eq(right, old_right));
    assert!(!Arc::ptr_eq(left, old_left));
}

#[test]
fn insert_shares_the_subtrees_beside_the_path() {
    let data = pattern(2000);
    let tree = ChunkTree::from_slice(&data);
    let (old_left, old_mid, old_right, _) = children(&tree);
    let edited = tree.insert(1500, b"xyz").unwrap();
    let (left, mid, right, _) = children(&edited);
    assert!(Arc::ptr_eq(left, old_left));
    assert!(Arc::ptr_eq(mid, old_mid));
    assert!(!Arc::ptr_eq(right, old_right));
    let (before, inserted, after, size) = children(right);
    assert_eq!((before.len(), inserted.len(), after.len(), size), (500, 3, 500, 1003));
    assert_eq!(Arc::strong_count(old_left), 2);
}

#[test]
fn remove_deletes_every_span_of_a_deep_tree() {
    let data = pattern(5000);
    let tree = ChunkTree::from_slice(&data);
    for (start, end) in [(0usize, 0usize), (0, 5000), (1, 4999), (1249, 1251), (2500, 2500),
        (2499, 3751), (4999, 5000), (5000, 5000), (0, 1250), (1250, 2500)]
    {
        let edited = tree.remove(start..end).unwrap();
        let mut expected = data[..start].to_vec();
        expected.extend_from_slice(&data[end..]);
        assert_eq!(edited.collect_bytes(), expected);
        assert_eq!(edited.len(), 5000 - (end - start));
        assert!(sizes_add_up(&edited));
        assert_eq!(tree.collect_bytes(), data);
    }
}

#[test]
fn remove_of_a_leaf_yields_an_internal_node() {
    let tree = ChunkTree::from_slice(b"Hello World!");
    let edited = tree.remove(0..12).unwrap();
    let (left, mid, right, size) = children(&edited);
    assert_eq!((leaf_len(left), leaf_len(mid), leaf_len(right), size), (Some(0), Some(0), Some(0), 0));
    assert!(edited.is_empty());
}

#[test]
fn remove_never_collapses_nodes() {
    let data = pattern(2000);
    let tree = ChunkTree::from_slice(&data);
    let edited = tree.remove(0..2000).unwrap();
    let (left, mid, right, size) = children(&edited);
    assert_eq!(size, 0);
    assert!(leaf_len(left).is_none() && leaf_len(mid).is_none() && leaf_len(right).is_none());
}

#[test]
fn remove_keeps_an_internal_child_that_ends_before_the_span() {
    let data = pattern(5000);
    let tree = ChunkTree::from_slice(&data);
    let (old_left, _, _, _) = children(&tree);
    let edited = tree.remove(2501..2600).unwrap();
    let (left, mid, right, size) = children(&edited);
    assert_eq!(size, 4901);
    assert_eq!((left.len(), mid.len(), right.len()), (2500, 0, 2401));
    let (was_a, was_b, was_c, _) = children(old_left);
    let (a, b, c, _) = children(left);
    assert!(Arc::ptr_eq(a, was_a) && Arc::ptr_eq(b, was_b) && Arc::ptr_eq(c, was_c));
    let mut expected = data[..2501].to_vec();
    expected.extend_from_slice(&data[2600..]);
    assert_eq!(edited.collect_bytes(), expected);
}

#[test]
fn remove_rebuilds_a_child_that_ends_where_the_span_starts() {
    let data = pattern(5000);
    let tree = ChunkTree::from_slice(&data);
    let edited = tree.remove(2500..2600).unwrap();
    let (left, _, _, size) = children(&edited);
    assert_eq!((left.len(), size), (2500, 4900));
    let (a, _, _, _) = children(left);
    assert!(leaf_len(a).is_none());
}

#[test]
fn range_shift_left_stops_at_zero() {
    assert_eq!(ChunkTree::range_shift_left(&(5..15), 3), 2..12);
    assert_eq!(ChunkTree::range_shift_left(&(5..15), 5), 0..10);
    assert_eq!(ChunkTree::range_shift_left(&(5..15), 7), 0..8);
    assert_eq!(ChunkTree::range_shift_left(&(5..15), 15), 0..0);
    assert_eq!(ChunkTree::range_shift_left(&(5..15), 20), 0..0);
}

#[test]
fn edits_leave_earlier_versions_usable() {
    let v0 = ChunkTree::from_slice(b"Hello World!");
    let v1 = v0.insert(5, b" beautiful").unwrap();
    let v2 = v1.remove(0..6).unwrap();
    let v3 = v2.insert(0, b"A ").unwrap();
    assert_eq!(v0.collect_bytes(), b"Hello World!");
    assert_eq!(v1.collect_bytes(), b"Hello beautiful World!");
    assert_eq!(v2.collect_bytes(), b"beautiful World!");
    assert_eq!(v3.collect_bytes(), b"A beautiful World!");
    assert_eq!((v0.len(), v1.len(), v2.len(), v3.len()), (12, 22, 16, 18));
}
