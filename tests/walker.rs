use ygrep::walk::join_child;
use ygrep::{walk_dir, walk_path, NodeKind, WalkAction, WalkEvent, WalkPath};

/// An in-memory tree standing for a file system.
enum Node {
    File,
    Special,
    Symlink,
    /// A directory whose entries are listed in this order.
    Dir(Vec<(&'static str, Node)>),
    /// A directory that cannot be opened.
    Locked,
    /// A directory whose listing fails after this many entries.
    Broken(Vec<(&'static str, Node)>),
    /// An entry whose type cannot be read.
    Unknown,
}

fn kind(n: &Node) -> Option<NodeKind> {
    match n {
        Node::File => Some(NodeKind::File),
        Node::Special => Some(NodeKind::Other),
        Node::Symlink => Some(NodeKind::Symlink),
        Node::Dir(_) | Node::Locked | Node::Broken(_) => Some(NodeKind::Dir),
        Node::Unknown => None,
    }
}

#[derive(Debug, PartialEq)]
enum Item {
    File(String),
    Error(String),
}

/// Drives a walk over `root` (named `name`) and returns what it handed
/// out, with the largest number of listings open at once.
fn run(name: &str, root: &Node) -> (Vec<Item>, usize) {
    let mut items = Vec::new();
    let k = kind(root).unwrap();
    let mut wp = walk_path(name.as_bytes().to_vec(), k, true);
    if let Some(p) = wp.take_file() {
        items.push(Item::File(String::from_utf8(p).unwrap()));
        assert!(wp.take_file().is_none());
        return (items, 0);
    }
    let mut wd = match wp {
        WalkPath::Dir(wd) => wd,
        _ => panic!("expected a directory walk"),
    };
    // Each open listing: its entries and the next index.
    let mut open: Vec<(&Vec<(&'static str, Node)>, usize, bool)> = Vec::new();
    match root {
        Node::Dir(es) => open.push((es, 0, false)),
        _ => panic!("root must be a readable directory"),
    }
    let mut most = 1;
    let mut pending: Option<&Node> = None;
    loop {
        let ev = if let Some(n) = pending.take() {
            match n {
                Node::Dir(es) => {
                    open.push((es, 0, false));
                    most = most.max(open.len());
                    assert_eq!(wd.depth(), open.len());
                    continue;
                }
                Node::Broken(es) => {
                    open.push((es, 0, true));
                    most = most.max(open.len());
                    continue;
                }
                _ => WalkEvent::OpenError,
            }
        } else {
            let top = open.last_mut().unwrap();
            if top.1 < top.0.len() {
                let (n, node) = &top.0[top.1];
                top.1 += 1;
                match kind(node) {
                    Some(k) => {
                        if k == NodeKind::Dir {
                            pending = Some(node);
                        }
                        WalkEvent::Entry(n.as_bytes().to_vec(), k)
                    }
                    None => WalkEvent::EntryError(n.as_bytes().to_vec()),
                }
            } else if top.2 {
                WalkEvent::ListError
            } else {
                WalkEvent::End
            }
        };
        match wd.step(ev) {
            WalkAction::Yield(p) => items.push(Item::File(String::from_utf8(p).unwrap())),
            WalkAction::Report(p) => items.push(Item::Error(String::from_utf8(p).unwrap())),
            WalkAction::Descend(_) => {}
            WalkAction::Ascend => {
                open.pop();
            }
            WalkAction::AscendReport(p) => {
                open.pop();
                items.push(Item::Error(String::from_utf8(p).unwrap()));
            }
            WalkAction::Skip => {}
            WalkAction::Done => break,
        }
        if open.is_empty() && pending.is_none() {
            assert_eq!(wd.step(WalkEvent::End), WalkAction::Done);
            break;
        }
    }
    (items, most)
}

fn file(s: &str) -> Item {
    Item::File(s.to_string())
}

fn error(s: &str) -> Item {
    Item::Error(s.to_string())
}

#[test]
fn single_file_root_yields_itself_once() {
    for follow in [false, true] {
        let mut wp = walk_path(b"/r/a.txt".to_vec(), NodeKind::File, follow);
        assert_eq!(wp.take_file(), Some(b"/r/a.txt".to_vec()));
        assert_eq!(wp.take_file(), None);
    }
}

#[test]
fn special_root_is_read_as_a_file() {
    let mut wp = walk_path(b"/dev/fifo".to_vec(), NodeKind::Other, true);
    assert_eq!(wp.take_file(), Some(b"/dev/fifo".to_vec()));
}

#[test]
fn empty_subdirectories_yield_nothing() {
    let tree = Node::Dir(vec![
        ("a", Node::Dir(vec![("b", Node::Dir(vec![]))])),
        ("c", Node::Dir(vec![])),
    ]);
    let (items, _) = run("/r", &tree);
    assert_eq!(items, vec![]);
}

fn level(d: usize, w: usize) -> Node {
    let mut es: Vec<(&'static str, Node)> = Vec::new();
    let names = ["f0", "f1", "f2", "f3"];
    for name in names.iter().take(w) {
        es.push((name, Node::File));
    }
    if d > 1 {
        es.push(("sub", level(d - 1, w)));
    }
    Node::Dir(es)
}

#[test]
fn deep_tree_yields_every_file_with_bounded_listings() {
    let (items, most) = run("/r", &level(4, 3));
    assert_eq!(items.len(), 12);
    assert!(items.iter().all(|i| matches!(i, Item::File(_))));
    assert!(most <= 5);
    assert!(items.contains(&file("/r/sub/sub/sub/f2")));
}

#[test]
fn nested_special_files_and_links_are_skipped() {
    let tree = Node::Dir(vec![
        ("fifo", Node::Special),
        ("link", Node::Symlink),
        ("a", Node::File),
    ]);
    let (items, _) = run("/r", &tree);
    assert_eq!(items, vec![file("/r/a")]);
}

#[test]
fn locked_sibling_reports_one_error() {
    let tree = Node::Dir(vec![
        ("x", Node::Dir(vec![("1.txt", Node::File)])),
        ("y", Node::Locked),
        ("z", Node::Dir(vec![("2.txt", Node::File)])),
    ]);
    let (items, _) = run("/r", &tree);
    assert_eq!(items, vec![file("/r/x/1.txt"), error("/r/y"), file("/r/z/2.txt")]);
}

#[test]
fn entry_metadata_error_skips_only_that_entry() {
    let tree = Node::Dir(vec![("bad", Node::Unknown), ("good", Node::File)]);
    let (items, _) = run("/r", &tree);
    assert_eq!(items, vec![error("/r/bad"), file("/r/good")]);
}

#[test]
fn listing_error_abandons_the_rest_of_that_directory() {
    let tree = Node::Dir(vec![
        ("d", Node::Broken(vec![("1", Node::File)])),
        ("e", Node::File),
    ]);
    let (items, _) = run("/r", &tree);
    assert_eq!(items, vec![file("/r/d/1"), error("/r/d"), file("/r/e")]);
}

#[test]
fn join_child_adds_one_separator() {
    assert_eq!(join_child(&b"/r".to_vec(), &b"a".to_vec()), b"/r/a".to_vec());
    assert_eq!(join_child(&b"/r/".to_vec(), &b"a".to_vec()), b"/r/a".to_vec());
    assert_eq!(join_child(&b"".to_vec(), &b"a".to_vec()), b"/a".to_vec());
}

#[test]
fn walk_dir_follow_flag_is_kept() {
    let wd = walk_dir(b"/r".to_vec(), false);
    assert!(!wd.follow_symlink());
    assert_eq!(wd.depth(), 1);
}

#[test]
fn error_record_keeps_path_and_cause() {
    let e = ygrep::WalkError::new(
        std::io::Error::new(std::io::ErrorKind::PermissionDenied, "denied"),
        b"/r/y".to_vec(),
    );
    assert_eq!(e.path, b"/r/y".to_vec());
    assert_eq!(e.err.kind(), std::io::ErrorKind::PermissionDenied);
}
