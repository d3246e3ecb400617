use dirwalk::entry::{copy_bytes, Tree};
use dirwalk::walker::{is_dot, real_names};

#[test]
fn copy_is_equal() {
    assert_eq!(copy_bytes(&b"abc".to_vec()), b"abc".to_vec());
    assert_eq!(copy_bytes(&Vec::new()), Vec::<u8>::new());
}

#[test]
fn only_dot_and_dot_dot_are_dot_entries() {
    assert!(is_dot(&b".".to_vec()));
    assert!(is_dot(&b"..".to_vec()));
    assert!(!is_dot(&b"".to_vec()));
    assert!(!is_dot(&b"a".to_vec()));
    assert!(!is_dot(&b".a".to_vec()));
    assert!(!is_dot(&b"a.".to_vec()));
    assert!(!is_dot(&b"...".to_vec()));
}

#[test]
fn real_names_keep_their_order() {
    let names = vec![b"z".to_vec(), b".".to_vec(), b"a".to_vec(), b"..".to_vec(), b"a".to_vec()];
    assert_eq!(real_names(&names), vec![b"z".to_vec(), b"a".to_vec(), b"a".to_vec()]);
    assert_eq!(real_names(&Vec::new()), Vec::<Vec<u8>>::new());
}

#[test]
fn new_tree_is_a_single_root() {
    let t = Tree::new(b"root".to_vec());
    assert_eq!(t.nodes.len(), 1);
    assert!(t.nodes[0].is_dir);
    assert_eq!(t.nodes[0].parent, None);
    assert_eq!(t.path_to(0), vec![0]);
    assert_eq!(t.depth(0), 0);
    assert!(!t.repeats_ancestor(0));
    assert_eq!(t.children(0), Vec::<usize>::new());
}
