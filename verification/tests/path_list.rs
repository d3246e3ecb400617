use dirwalk::entry::DirEntry;
use dirwalk::entry::Identity;
use dirwalk::path_list::{leads_back, PathList};

#[test]
fn empty_path_is_the_root() {
    let p = PathList::new();
    assert_eq!(p.render(), b"/".to_vec());
}

#[test]
fn components_are_rendered_outermost_first() {
    let mut p = PathList::new();
    assert!(!p.climb(b"leaf".to_vec()));
    assert!(!p.climb(b"mid".to_vec()));
    assert!(!p.climb(b"top".to_vec()));
    assert_eq!(p.render(), b"/top/mid/leaf".to_vec());
}

#[test]
fn dot_entries_end_the_climb() {
    let mut p = PathList::new();
    assert!(!p.climb(b"home".to_vec()));
    assert!(p.climb(b"..".to_vec()));
    assert!(p.climb(b".".to_vec()));
    assert!(!p.climb(b"...".to_vec()));
    assert_eq!(p.parts, vec![b"home".to_vec(), b"...".to_vec()]);
}

#[test]
fn new_entry_is_unset() {
    let e = DirEntry::new(b"n".to_vec(), Some(4));
    assert_eq!(e.name, b"n".to_vec());
    assert_eq!(e.parent, Some(4));
    assert_eq!(e.identity, Identity { dev: 0, ino: 0 });
    assert!(!e.is_dir && !e.loop_flag && !e.cycle_flag);
}

#[test]
fn only_a_directory_with_the_same_identity_leads_back() {
    let here = Identity { dev: 3, ino: 40 };
    assert!(leads_back(true, Identity { dev: 3, ino: 40 }, here));
    assert!(!leads_back(false, Identity { dev: 3, ino: 40 }, here));
    assert!(!leads_back(true, Identity { dev: 4, ino: 40 }, here));
    assert!(!leads_back(true, Identity { dev: 3, ino: 41 }, here));
}
