use keyed_list::diff::{diff, AddMode};
use keyed_list::host_tree::HostTree;
use keyed_list::key_seq::KeySeq;
use keyed_list::state::keyed_enumerate;
use keyed_list::unpack::unpack_moves;

fn tree_keys(tree: &HostTree) -> Vec<u64> {
    let mut keys = Vec::new();
    let n = tree.len();
    for i in 0..n {
        keys.push(tree.key_at(i));
    }
    keys
}

#[test]
fn clear_fast_path() {
    // old = [a, b, c], new = [x, y], disjoint: clear with three removals
    // and two appends, in order x then y.
    let old_keys = KeySeq::from_items(&vec![1, 2, 3]);
    let new_keys = KeySeq::from_items(&vec![10, 20]);
    let script = diff(&old_keys, &new_keys);
    assert!(script.clear);
    assert_eq!(script.removed.len(), 3);
    assert_eq!(script.moved.len(), 0);
    assert_eq!(script.added.len(), 2);
    assert_eq!(script.added[0].at, 0);
    assert_eq!(script.added[1].at, 1);
    assert!(matches!(script.added[0].mode, AddMode::Append));
    assert!(matches!(script.added[1].mode, AddMode::Append));
}

#[test]
fn pure_reorder() {
    // old = [a, b, c], new = [c, a, b]: no removals, no additions, all
    // three moved, and the unpacker relocates only c.
    let a = KeySeq::from_items(&vec![1, 2, 3]);
    let b = KeySeq::from_items(&vec![3, 1, 2]);
    let script = diff(&a, &b);
    assert!(!script.clear);
    assert_eq!(script.removed.len(), 0);
    assert_eq!(script.added.len(), 0);
    assert_eq!(script.moved.len(), 3);
    assert_eq!((script.moved[0].from, script.moved[0].to), (0, 1));
    assert_eq!((script.moved[1].from, script.moved[1].to), (1, 2));
    assert_eq!((script.moved[2].from, script.moved[2].to), (2, 0));
    let (cmds, adds) = unpack_moves(&script, &a, &b);
    assert_eq!(adds.len(), 0);
    assert_eq!(cmds.len(), 3);
    assert_eq!((cmds[0].from, cmds[0].to, cmds[0].physical), (2, 0, true));
    assert_eq!((cmds[1].from, cmds[1].to, cmds[1].physical), (0, 1, false));
    assert_eq!((cmds[2].from, cmds[2].to, cmds[2].physical), (1, 2, false));

    let mut tree = HostTree::new();
    let mut state = keyed_enumerate(vec![1, 2, 3]).build();
    state.mount(&mut tree);
    state.rebuild(&mut tree, &keyed_enumerate(vec![3, 1, 2]));
    assert_eq!(tree_keys(&tree), vec![3, 1, 2]);
}

#[test]
fn mixed_case() {
    // old = [a, b, c, d], new = [b, e, d, a]: c removed, e added Normal,
    // b, d, a moved with only a physically relocated.
    let a = KeySeq::from_items(&vec![1, 2, 3, 4]);
    let b = KeySeq::from_items(&vec![2, 5, 4, 1]);
    let script = diff(&a, &b);
    assert!(!script.clear);
    assert_eq!(script.removed.len(), 1);
    assert_eq!(script.removed[0].at, 2);
    assert_eq!(script.added.len(), 1);
    assert_eq!(script.added[0].at, 1);
    assert!(matches!(script.added[0].mode, AddMode::Normal));
    assert_eq!(script.moved.len(), 3);
    let (cmds, adds) = unpack_moves(&script, &a, &b);
    assert_eq!(adds.len(), 1);
    assert_eq!((cmds[0].from, cmds[0].to, cmds[0].physical), (1, 0, false));
    assert_eq!((cmds[1].from, cmds[1].to, cmds[1].physical), (3, 2, false));
    assert_eq!((cmds[2].from, cmds[2].to, cmds[2].physical), (0, 3, true));

    let mut tree = HostTree::new();
    let mut state = keyed_enumerate(vec![1, 2, 3, 4]).build();
    state.mount(&mut tree);
    state.rebuild(&mut tree, &keyed_enumerate(vec![2, 5, 4, 1]));
    assert_eq!(tree_keys(&tree), vec![2, 5, 4, 1]);
    assert_eq!(state.len(), 4);
    for i in 0..4 {
        assert_eq!(state.index_value_at(i), i);
    }
}

#[test]
fn empty_old_appends_everything() {
    let a = KeySeq::from_items(&vec![]);
    let b = KeySeq::from_items(&vec![7, 8, 9]);
    let script = diff(&a, &b);
    assert!(!script.clear);
    assert_eq!(script.removed.len(), 0);
    assert_eq!(script.moved.len(), 0);
    assert_eq!(script.added.len(), 3);
    for add in &script.added {
        assert!(matches!(add.mode, AddMode::Append));
    }
}

#[test]
fn empty_new_clears() {
    let a = KeySeq::from_items(&vec![7, 8]);
    let b = KeySeq::from_items(&vec![]);
    let script = diff(&a, &b);
    assert!(script.clear);
    assert_eq!(script.removed.len(), 2);
    assert_eq!(script.added.len(), 0);

    let mut tree = HostTree::new();
    let mut state = keyed_enumerate(vec![7, 8]).build();
    state.mount(&mut tree);
    state.rebuild(&mut tree, &keyed_enumerate(vec![]));
    assert_eq!(tree.len(), 0);
    assert_eq!(state.len(), 0);
}

#[test]
fn both_empty_is_a_noop() {
    let a = KeySeq::from_items(&vec![]);
    let b = KeySeq::from_items(&vec![]);
    let script = diff(&a, &b);
    assert!(!script.clear);
    assert_eq!(script.removed.len(), 0);
    assert_eq!(script.moved.len(), 0);
    assert_eq!(script.added.len(), 0);
}

#[test]
fn noop_second_pass() {
    // The second pass over the same items computes an empty script and
    // leaves the host tree untouched.
    let mut tree = HostTree::new();
    let mut state = keyed_enumerate(vec![4, 5, 6]).build();
    state.mount(&mut tree);
    state.rebuild(&mut tree, &keyed_enumerate(vec![7, 5]));
    state.rebuild(&mut tree, &keyed_enumerate(vec![7, 5]));
    assert_eq!(tree_keys(&tree), vec![7, 5]);

    let k = KeySeq::from_items(&vec![7, 5]);
    let again = KeySeq::from_items(&vec![7, 5]);
    let script = diff(&k, &again);
    assert!(!script.clear);
    assert_eq!(script.removed.len(), 0);
    assert_eq!(script.moved.len(), 0);
    assert_eq!(script.added.len(), 0);
}

#[test]
fn append_suffix_no_physical_moves() {
    // A purely appended suffix on a stable prefix produces zero moves.
    let a = KeySeq::from_items(&vec![1, 2]);
    let b = KeySeq::from_items(&vec![1, 2, 3, 4]);
    let script = diff(&a, &b);
    assert_eq!(script.removed.len(), 0);
    assert_eq!(script.moved.len(), 0);
    assert_eq!(script.added.len(), 2);
    assert!(matches!(script.added[0].mode, AddMode::Append));
    let (cmds, adds) = unpack_moves(&script, &a, &b);
    assert_eq!(cmds.len(), 0);
    assert_eq!(adds.len(), 2);

    let mut tree = HostTree::new();
    let mut state = keyed_enumerate(vec![1, 2]).build();
    state.mount(&mut tree);
    state.rebuild(&mut tree, &keyed_enumerate(vec![1, 2, 3, 4]));
    assert_eq!(tree_keys(&tree), vec![1, 2, 3, 4]);
}

#[test]
fn duplicate_keys_collapse_to_first_position() {
    let k = KeySeq::from_items(&vec![1, 2, 1, 3, 2]);
    assert_eq!(k.len(), 3);
    assert_eq!(k.key_at(0), 1);
    assert_eq!(k.key_at(1), 2);
    assert_eq!(k.key_at(2), 3);
    assert_eq!(k.index_of(2), Some(1));
    assert_eq!(k.index_of(9), None);
    assert!(k.contains(3));
    assert!(!k.contains(4));
}

#[test]
fn key_conservation_and_order() {
    // Every key of the new sequence ends up mounted exactly once, in the
    // new order, across an arbitrary mix of operations.
    let mut tree = HostTree::new();
    let mut state = keyed_enumerate(vec![1, 2, 3, 4, 5]).build();
    state.mount(&mut tree);
    assert_eq!(tree_keys(&tree), vec![1, 2, 3, 4, 5]);
    state.rebuild(&mut tree, &keyed_enumerate(vec![6, 4, 2, 7, 1]));
    assert_eq!(tree_keys(&tree), vec![6, 4, 2, 7, 1]);
    for i in 0..5 {
        assert_eq!(state.key_at(i), [6, 4, 2, 7, 1][i]);
        assert_eq!(state.index_value_at(i), i);
    }
    assert!(!tree.contains(3));
    assert!(!tree.contains(5));
}

#[test]
fn mount_and_unmount_round_trip() {
    let mut tree = HostTree::new();
    let mut state = keyed_enumerate(vec![9, 8]).build();
    state.mount(&mut tree);
    assert_eq!(tree_keys(&tree), vec![9, 8]);
    assert_eq!(state.insert_before_this(), Some(9));
    state.unmount(&mut tree);
    assert_eq!(tree.len(), 0);
}

#[test]
fn insert_before_this_of_empty_list() {
    let state = keyed_enumerate(vec![]).build();
    assert_eq!(state.insert_before_this(), None);
}

#[test]
fn full_reversal_around_a_stationary_middle() {
    // old = [a, b, c], new = [c, b, a]: b keeps its position and may not be
    // touched, so both a and c must be physically relocated.
    let a = KeySeq::from_items(&vec![1, 2, 3]);
    let b = KeySeq::from_items(&vec![3, 2, 1]);
    let script = diff(&a, &b);
    assert_eq!(script.moved.len(), 2);
    let (cmds, _adds) = unpack_moves(&script, &a, &b);
    assert_eq!(cmds.len(), 2);
    assert!(cmds[0].physical);
    assert!(cmds[1].physical);

    let mut tree = HostTree::new();
    let mut state = keyed_enumerate(vec![1, 2, 3]).build();
    state.mount(&mut tree);
    state.rebuild(&mut tree, &keyed_enumerate(vec![3, 2, 1]));
    assert_eq!(tree_keys(&tree), vec![3, 2, 1]);
}
