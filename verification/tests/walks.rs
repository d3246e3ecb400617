use dirwalk::config::{Config, ConfigError};
use dirwalk::entry::{Identity, Tree};
use dirwalk::show::show;
use dirwalk::walker::{walk, Action, Event, Phase, Walker};

/// What a name in a simulated directory leads to.
enum Slot {
    /// An object of the simulated filesystem, by index.
    Object(usize),
    /// The entry is gone when it is examined.
    Gone,
    /// Examining the entry meets too many levels of symbolic links.
    Looping,
    /// Examining the entry fails in some other way.
    Broken,
}

struct Object {
    id: (u64, u64),
    is_dir: bool,
    entries: Vec<(&'static str, Slot)>,
}

fn dir(id: (u64, u64), entries: Vec<(&'static str, Slot)>) -> Object {
    Object { id, is_dir: true, entries }
}

fn file(id: (u64, u64)) -> Object {
    Object { id, is_dir: false, entries: Vec::new() }
}

fn ident(id: (u64, u64)) -> Identity {
    Identity { dev: id.0, ino: id.1 }
}

/// Runs a walk to its end against the simulated filesystem, whose object 0
/// is the root, and returns the walker with the last action.
fn run(fs: &[Object], root: &str, config: Config) -> (Walker, Action, usize) {
    let (mut w, mut action) = Walker::new(root.as_bytes().to_vec(), config).unwrap();
    let mut object_of: Vec<usize> = vec![0];
    let mut requests: usize = 0;
    loop {
        let event = match &action {
            Action::Examine { node } => Event::Identity(ident(fs[object_of[*node]].id)),
            Action::List { node } => {
                let mut names: Vec<Vec<u8>> = vec![b".".to_vec(), b"..".to_vec()];
                for (name, _) in fs[object_of[*node]].entries.iter() {
                    names.push(name.as_bytes().to_vec());
                }
                Event::Entries(names)
            }
            Action::Stat { dir, name, follow: _ } => {
                let slot = fs[object_of[*dir]]
                    .entries
                    .iter()
                    .find(|(n, _)| n.as_bytes() == name.as_slice())
                    .map(|(_, s)| s)
                    .unwrap();
                match slot {
                    Slot::Object(o) => {
                        object_of.push(*o);
                        Event::Found { is_dir: fs[*o].is_dir, identity: ident(fs[*o].id) }
                    }
                    Slot::Gone => Event::Vanished,
                    Slot::Looping => Event::TooManyLinks,
                    Slot::Broken => Event::Failed,
                }
            }
            Action::Finish | Action::Abort => return (w, action, requests),
        };
        requests += 1;
        assert!(requests < 10_000);
        let before = w.tree.nodes.len();
        let found = matches!(event, Event::Found { .. });
        action = walk(&mut w, event);
        if found && w.tree.nodes.len() == before {
            object_of.pop();
        }
    }
}

fn lines(tree: &Tree) -> Vec<String> {
    show(tree, 0).into_iter().map(|l| String::from_utf8(l).unwrap()).collect()
}

fn strict() -> Config {
    Config::new(false, true).unwrap()
}

fn following() -> Config {
    Config::new(true, true).unwrap()
}

#[test]
fn plain_tree_is_mirrored() {
    let fs = vec![
        dir((1, 10), vec![("a", Slot::Object(1)), ("b.txt", Slot::Object(2))]),
        dir((1, 11), vec![]),
        file((1, 12)),
    ];
    let (w, action, _) = run(&fs, "root", strict());
    assert!(matches!(action, Action::Finish));
    assert_eq!(w.phase, Phase::Done);
    assert_eq!(lines(&w.tree), vec!["root", "  a", "  b.txt"]);
    assert_eq!(w.tree.nodes.len(), 3);
    assert_eq!(w.tree.nodes[0].identity, ident((1, 10)));
    assert_eq!(w.tree.nodes[1].identity, ident((1, 11)));
    assert_eq!(w.tree.nodes[2].identity, ident((1, 12)));
    assert_eq!(w.tree.nodes[1].parent, Some(0));
    assert_eq!(w.tree.nodes[2].parent, Some(0));
    assert!(w.tree.nodes.iter().all(|n| !n.loop_flag && !n.cycle_flag));
}

#[test]
fn nested_tree_is_listed_depth_first() {
    let fs = vec![
        dir((1, 1), vec![("a", Slot::Object(1)), ("z", Slot::Object(4))]),
        dir((1, 2), vec![("b", Slot::Object(2)), ("c", Slot::Object(3))]),
        dir((1, 3), vec![("deep", Slot::Object(5))]),
        file((1, 4)),
        file((1, 5)),
        file((1, 6)),
    ];
    let (w, action, _) = run(&fs, "top", strict());
    assert!(matches!(action, Action::Finish));
    assert_eq!(lines(&w.tree), vec!["top", "  a", "    b", "      deep", "    c", "  z"]);
    assert_eq!(w.tree.path_to(3), vec![0, 1, 2, 3]);
    assert_eq!(w.tree.depth(3), 3);
    assert_eq!(w.tree.children(1), vec![2, 4]);
    assert_eq!(w.tree.children(0), vec![1, 5]);
    assert_eq!(w.tree.children(5), Vec::<usize>::new());
}

#[test]
fn directory_identical_to_its_ancestor_is_a_loop() {
    let fs = vec![dir((7, 70), vec![("a", Slot::Object(0))])];
    let (w, action, _) = run(&fs, "root", strict());
    assert!(matches!(action, Action::Finish));
    assert_eq!(lines(&w.tree), vec!["root", "  a (loop)"]);
    assert_eq!(w.tree.nodes.len(), 2);
    assert!(w.tree.nodes[1].loop_flag);
    assert!(!w.tree.nodes[0].loop_flag);
    assert!(w.tree.repeats_ancestor(1));
    assert!(!w.tree.repeats_ancestor(0));
}

#[test]
fn loop_through_a_distant_ancestor_is_found() {
    let fs = vec![
        dir((1, 1), vec![("a", Slot::Object(1))]),
        dir((1, 2), vec![("b", Slot::Object(2))]),
        dir((1, 3), vec![("back", Slot::Object(1)), ("f", Slot::Object(3))]),
        file((1, 4)),
    ];
    let (w, action, _) = run(&fs, "r", strict());
    assert!(matches!(action, Action::Finish));
    assert_eq!(lines(&w.tree), vec!["r", "  a", "    b", "      back (loop)", "      f"]);
}

#[test]
fn too_many_links_marks_the_parent_and_drops_the_entry() {
    let fs = vec![dir((1, 1), vec![("link", Slot::Looping), ("ok", Slot::Object(1))]), file((1, 2))];
    let (w, action, _) = run(&fs, "root", following());
    assert!(matches!(action, Action::Finish));
    assert_eq!(lines(&w.tree), vec!["root (cycle)", "  ok"]);
    assert!(w.tree.nodes[0].cycle_flag);
    assert!(!w.tree.nodes[1].cycle_flag);
}

#[test]
fn cycle_flag_stays_clear_without_too_many_links() {
    let fs = vec![dir((1, 1), vec![("gone", Slot::Gone), ("ok", Slot::Object(1))]), file((1, 2))];
    let (w, _, _) = run(&fs, "root", following());
    assert!(w.tree.nodes.iter().all(|n| !n.cycle_flag));
}

#[test]
fn vanished_entry_is_absent_and_not_fatal() {
    let fs = vec![
        dir((1, 1), vec![("a", Slot::Object(1)), ("gone", Slot::Gone), ("b", Slot::Object(2))]),
        file((1, 2)),
        file((1, 3)),
    ];
    let (w, action, _) = run(&fs, "root", strict());
    assert!(matches!(action, Action::Finish));
    assert_eq!(w.phase, Phase::Done);
    assert_eq!(lines(&w.tree), vec!["root", "  a", "  b"]);
}

#[test]
fn other_failure_aborts_the_walk() {
    let fs = vec![dir((1, 1), vec![("a", Slot::Object(1)), ("bad", Slot::Broken)]), file((1, 2))];
    let (w, action, _) = run(&fs, "root", strict());
    assert!(matches!(action, Action::Abort));
    assert_eq!(w.phase, Phase::Failed);
    assert_eq!(w.tree.nodes.len(), 2);
}

#[test]
fn relaxed_loop_without_follow_is_refused() {
    assert_eq!(Config::new(false, false), Err(ConfigError::RelaxedLoopNeedsFollow));
    let bad = Config { follow_symlinks: false, strict_loop: false };
    assert!(!bad.is_valid());
    let r = Walker::new(b"root".to_vec(), bad);
    assert!(matches!(r, Err(ConfigError::RelaxedLoopNeedsFollow)));
}

#[test]
fn other_policies_are_accepted() {
    assert_eq!(Config::new(false, true), Ok(Config { follow_symlinks: false, strict_loop: true }));
    assert_eq!(Config::new(true, true), Ok(Config { follow_symlinks: true, strict_loop: true }));
    assert_eq!(Config::new(true, false), Ok(Config { follow_symlinks: true, strict_loop: false }));
}

#[test]
fn first_request_is_the_identity_of_the_root() {
    let (w, action) = Walker::new(b"root".to_vec(), strict()).unwrap();
    assert!(matches!(action, Action::Examine { node: 0 }));
    assert_eq!(w.phase, Phase::Root);
    assert_eq!(w.tree.nodes.len(), 1);
    assert_eq!(w.tree.nodes[0].name, b"root".to_vec());
    assert_eq!(w.tree.nodes[0].parent, None);
    assert_eq!(w.tree.nodes[0].identity, ident((0, 0)));
}

#[test]
fn directory_is_examined_twice_when_links_are_followed() {
    let (mut w, _) = Walker::new(b"root".to_vec(), following()).unwrap();
    let a = walk(&mut w, Event::Identity(ident((1, 1))));
    assert!(matches!(a, Action::List { node: 0 }));
    let a = walk(&mut w, Event::Entries(vec![b".".to_vec(), b"d".to_vec(), b"..".to_vec()]));
    match a {
        Action::Stat { dir, name, follow } => {
            assert_eq!(dir, 0);
            assert_eq!(name, b"d".to_vec());
            assert!(!follow);
        }
        _ => panic!("a first examination was expected"),
    }
    let a = walk(&mut w, Event::Found { is_dir: true, identity: ident((1, 2)) });
    match a {
        Action::Stat { dir, name, follow } => {
            assert_eq!(dir, 0);
            assert_eq!(name, b"d".to_vec());
            assert!(follow);
        }
        _ => panic!("a second examination was expected"),
    }
    assert_eq!(w.phase, Phase::Target);
    assert_eq!(w.tree.nodes.len(), 1);
    let a = walk(&mut w, Event::Found { is_dir: true, identity: ident((9, 9)) });
    assert!(matches!(a, Action::List { node: 1 }));
    assert_eq!(w.tree.nodes[1].identity, ident((9, 9)));
    assert!(w.tree.nodes[1].is_dir);
    let a = walk(&mut w, Event::Entries(vec![]));
    assert!(matches!(a, Action::Finish));
}

#[test]
fn file_is_examined_once_when_links_are_followed() {
    let (mut w, _) = Walker::new(b"root".to_vec(), following()).unwrap();
    walk(&mut w, Event::Identity(ident((1, 1))));
    walk(&mut w, Event::Entries(vec![b"f".to_vec()]));
    let a = walk(&mut w, Event::Found { is_dir: false, identity: ident((1, 2)) });
    assert!(matches!(a, Action::Finish));
    assert_eq!(w.tree.nodes.len(), 2);
    assert!(!w.tree.nodes[1].is_dir);
}

#[test]
fn target_identity_decides_the_loop() {
    let (mut w, _) = Walker::new(b"root".to_vec(), following()).unwrap();
    walk(&mut w, Event::Identity(ident((1, 1))));
    walk(&mut w, Event::Entries(vec![b"d".to_vec()]));
    walk(&mut w, Event::Found { is_dir: true, identity: ident((1, 2)) });
    let a = walk(&mut w, Event::Found { is_dir: true, identity: ident((1, 1)) });
    assert!(matches!(a, Action::Finish));
    assert!(w.tree.nodes[1].loop_flag);
    assert_eq!(lines(&w.tree), vec!["root", "  d (loop)"]);
}

#[test]
fn file_with_the_identity_of_an_ancestor_is_no_loop() {
    let (mut w, _) = Walker::new(b"root".to_vec(), strict()).unwrap();
    walk(&mut w, Event::Identity(ident((1, 1))));
    walk(&mut w, Event::Entries(vec![b"f".to_vec()]));
    walk(&mut w, Event::Found { is_dir: false, identity: ident((1, 1)) });
    assert!(!w.tree.nodes[1].loop_flag);
}

#[test]
fn unexpected_answer_aborts() {
    let (mut w, _) = Walker::new(b"root".to_vec(), strict()).unwrap();
    let a = walk(&mut w, Event::Entries(vec![]));
    assert!(matches!(a, Action::Abort));
    assert_eq!(w.phase, Phase::Failed);
    let a = walk(&mut w, Event::Identity(ident((1, 1))));
    assert!(matches!(a, Action::Abort));
}

#[test]
fn finished_walk_stays_finished() {
    let fs = vec![dir((1, 1), vec![])];
    let (mut w, action, _) = run(&fs, "root", strict());
    assert!(matches!(action, Action::Finish));
    let a = walk(&mut w, Event::Vanished);
    assert!(matches!(a, Action::Finish));
    assert_eq!(w.phase, Phase::Done);
    assert_eq!(w.tree.nodes.len(), 1);
}

#[test]
fn failed_root_examination_aborts() {
    let (mut w, _) = Walker::new(b"root".to_vec(), strict()).unwrap();
    let a = walk(&mut w, Event::Failed);
    assert!(matches!(a, Action::Abort));
}

#[test]
fn names_that_only_start_with_a_dot_are_kept() {
    let (mut w, _) = Walker::new(b"root".to_vec(), strict()).unwrap();
    walk(&mut w, Event::Identity(ident((1, 1))));
    let names = vec![b".".to_vec(), b"..".to_vec(), b"...".to_vec(), b".a".to_vec(), b"".to_vec()];
    let a = walk(&mut w, Event::Entries(names));
    assert_eq!(w.stack[0].pending, vec![b"...".to_vec(), b".a".to_vec(), b"".to_vec()]);
    assert!(matches!(a, Action::Stat { dir: 0, follow: false, .. }));
}

#[test]
fn handle_is_opened_from_the_root_down() {
    let fs = vec![
        dir((1, 1), vec![("a", Slot::Object(1))]),
        dir((1, 2), vec![("b", Slot::Object(2))]),
        dir((1, 3), vec![]),
    ];
    let (w, _, _) = run(&fs, "root", following());
    let steps = w.open_steps(2);
    assert_eq!(steps.len(), 3);
    assert_eq!(steps.iter().map(|s| s.node).collect::<Vec<usize>>(), vec![0, 1, 2]);
    assert_eq!(steps.iter().map(|s| s.mode.no_follow).collect::<Vec<bool>>(), vec![true, false, false]);
    assert!(steps.iter().all(|s| s.mode.read_only && s.mode.directory_only));
    let (w, _, _) = run(&fs, "root", strict());
    let steps = w.open_steps(2);
    assert_eq!(steps.iter().map(|s| s.mode.no_follow).collect::<Vec<bool>>(), vec![true, true, true]);
}

#[test]
fn show_indents_from_the_given_level() {
    let fs = vec![dir((1, 1), vec![("a", Slot::Object(1))]), file((1, 2))];
    let (w, _, _) = run(&fs, "root", strict());
    let out = show(&w.tree, 3);
    assert_eq!(out, vec![b"   root".to_vec(), b"     a".to_vec()]);
}

#[test]
fn both_marks_follow_the_name() {
    let mut tree = Tree::new(b"x".to_vec());
    tree.nodes[0].loop_flag = true;
    tree.nodes[0].cycle_flag = true;
    assert_eq!(show(&tree, 0), vec![b"x (loop) (cycle)".to_vec()]);
}

#[test]
fn too_many_links_on_the_second_examination_marks_the_parent() {
    let (mut w, _) = Walker::new(b"root".to_vec(), following()).unwrap();
    walk(&mut w, Event::Identity(ident((1, 1))));
    walk(&mut w, Event::Entries(vec![b"d".to_vec(), b"e".to_vec()]));
    let a = walk(&mut w, Event::Found { is_dir: true, identity: ident((1, 2)) });
    assert!(matches!(a, Action::Stat { follow: true, .. }));
    let a = walk(&mut w, Event::TooManyLinks);
    match a {
        Action::Stat { dir, name, follow } => {
            assert_eq!(dir, 0);
            assert_eq!(name, b"e".to_vec());
            assert!(!follow);
        }
        _ => panic!("the next entry was expected"),
    }
    assert!(w.tree.nodes[0].cycle_flag);
    assert_eq!(w.tree.nodes.len(), 1);
    let a = walk(&mut w, Event::Vanished);
    assert!(matches!(a, Action::Finish));
    assert_eq!(lines(&w.tree), vec!["root (cycle)"]);
}

#[test]
fn walk_returns_to_the_parent_after_a_directory() {
    let (mut w, _) = Walker::new(b"r".to_vec(), strict()).unwrap();
    walk(&mut w, Event::Identity(ident((1, 1))));
    walk(&mut w, Event::Entries(vec![b"a".to_vec(), b"b".to_vec()]));
    let a = walk(&mut w, Event::Found { is_dir: true, identity: ident((1, 2)) });
    assert!(matches!(a, Action::List { node: 1 }));
    assert_eq!(w.stack.len(), 2);
    assert_eq!(w.stack[0].next, 1);
    let a = walk(&mut w, Event::Entries(vec![b".".to_vec(), b"..".to_vec()]));
    match a {
        Action::Stat { dir, name, follow } => {
            assert_eq!(dir, 0);
            assert_eq!(name, b"b".to_vec());
            assert!(!follow);
        }
        _ => panic!("the sibling was expected"),
    }
    assert_eq!(w.stack.len(), 1);
    assert_eq!(w.phase, Phase::Stat);
}
