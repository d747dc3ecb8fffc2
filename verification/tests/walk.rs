use convert_to_jpg::walk::{sorted_entries, FileWalk, ListedEntry};
use std::collections::BTreeMap;

enum Node {
    File,
    Dir(Vec<&'static str>),
    Other,
}

fn entry(dir: &str, name: &str) -> ListedEntry {
    ListedEntry { name: name.to_string(), path: format!("{}/{}", dir, name) }
}

fn run(tree: &BTreeMap<String, Node>, root: &str) -> Vec<String> {
    let mut walk = FileWalk::new(root.to_string());
    while let Some(path) = walk.next_path() {
        match tree.get(&path) {
            Some(Node::File) => walk.visit_file(),
            Some(Node::Dir(names)) => {
                let entries = names.iter().map(|n| entry(&path, n)).collect();
                walk.visit_directory(entries)
            },
            _ => walk.skip_path(),
        }
    }
    assert!(walk.is_done());
    walk.into_files()
}

#[test]
fn a_single_file_is_collected() {
    let mut tree = BTreeMap::new();
    tree.insert("a.png".to_string(), Node::File);
    assert_eq!(run(&tree, "a.png"), vec!["a.png".to_string()]);
}

#[test]
fn directories_are_walked_depth_first_in_name_order() {
    let mut tree = BTreeMap::new();
    tree.insert("r".to_string(), Node::Dir(vec!["z.png", "sub", "b.gif", "A.bmp"]));
    tree.insert("r/z.png".to_string(), Node::File);
    tree.insert("r/b.gif".to_string(), Node::File);
    tree.insert("r/A.bmp".to_string(), Node::File);
    tree.insert("r/sub".to_string(), Node::Dir(vec!["y", "x"]));
    tree.insert("r/sub/y".to_string(), Node::File);
    tree.insert("r/sub/x".to_string(), Node::Other);
    let files = run(&tree, "r");
    assert_eq!(files, vec!["r/A.bmp", "r/b.gif", "r/sub/y", "r/z.png"]);
}

#[test]
fn missing_root_collects_nothing() {
    let tree = BTreeMap::new();
    assert_eq!(run(&tree, "nowhere"), Vec::<String>::new());
}

#[test]
fn sorting_orders_by_code_point() {
    let names = ["é", "e", "Z", "a", "ab", "", "aa", "\u{1F600}", "b"];
    let entries: Vec<ListedEntry> = names.iter().map(|n| entry("d", n)).collect();
    let sorted: Vec<String> = sorted_entries(entries).into_iter().map(|e| e.name).collect();
    let mut expected: Vec<String> = names.iter().map(|n| n.to_string()).collect();
    expected.sort();
    assert_eq!(sorted, expected);
}

#[test]
fn files_come_out_in_route_order() {
    // "a" sorts before "a.png", so everything below the directory "a"
    // comes before the file "a.png", though "a.png" < "a/x" as text.
    let mut tree = BTreeMap::new();
    tree.insert("r".to_string(), Node::Dir(vec!["a.png", "b", "a"]));
    tree.insert("r/a".to_string(), Node::Dir(vec!["x", "w"]));
    tree.insert("r/a/x".to_string(), Node::File);
    tree.insert("r/a/w".to_string(), Node::File);
    tree.insert("r/a.png".to_string(), Node::File);
    tree.insert("r/b".to_string(), Node::File);
    let files = run(&tree, "r");
    assert_eq!(files, vec!["r/a/w", "r/a/x", "r/a.png", "r/b"]);
    let routes: Vec<Vec<&str>> = files.iter().map(|f| f.split('/').skip(1).collect()).collect();
    assert!(routes.windows(2).all(|w| w[0] < w[1]));
}
