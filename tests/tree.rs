use term_bridge::tree::{assemble_tree, FileNode, NodeKind, WalkEntry};

fn entry(path: &[&str], is_dir: bool) -> WalkEntry {
    WalkEntry {
        path: path.iter().map(|s| s.to_string()).collect(),
        is_dir,
    }
}

fn names(nodes: &[FileNode]) -> Vec<String> {
    nodes.iter().map(|n| n.name.clone()).collect()
}

#[test]
fn only_files_give_a_flat_listing() {
    let entries = vec![entry(&["x.rs"], false), entry(&["y.txt"], false), entry(&["z"], false)];
    let tree = assemble_tree(&entries);
    assert_eq!(names(&tree), vec!["x.rs", "y.txt", "z"]);
    for node in &tree {
        assert_eq!(node.kind, NodeKind::File);
        assert!(node.children.is_none());
    }
}

#[test]
fn one_directory_with_one_file() {
    let entries = vec![entry(&["a"], true), entry(&["a", "b.txt"], false)];
    let tree = assemble_tree(&entries);
    assert_eq!(tree.len(), 1);
    assert_eq!(tree[0].name, "a");
    assert_eq!(tree[0].kind, NodeKind::Directory);
    let children = tree[0].children.as_ref().unwrap();
    assert_eq!(children.len(), 1);
    assert_eq!(children[0].name, "b.txt");
    assert_eq!(children[0].kind, NodeKind::File);
    assert!(children[0].children.is_none());
}

#[test]
fn hidden_entries_are_kept() {
    let entries = vec![entry(&[".config"], true), entry(&[".config", ".env"], false), entry(&["main.rs"], false)];
    let tree = assemble_tree(&entries);
    assert_eq!(names(&tree), vec![".config", "main.rs"]);
    assert_eq!(names(tree[0].children.as_ref().unwrap()), vec![".env"]);
}

#[test]
fn empty_directory_has_empty_children() {
    let entries = vec![entry(&["empty"], true), entry(&["file"], false)];
    let tree = assemble_tree(&entries);
    assert_eq!(tree[0].kind, NodeKind::Directory);
    assert_eq!(tree[0].children.as_ref().map(|c| c.len()), Some(0));
    assert!(tree[1].children.is_none());
}

#[test]
fn only_found_entries_appear() {
    // The walk left out `target` and `a/build`: nothing in the tree names them.
    let entries = vec![
        entry(&["a"], true),
        entry(&["a", "src"], true),
        entry(&["a", "src", "lib.rs"], false),
        entry(&[".gitignore"], false),
    ];
    let tree = assemble_tree(&entries);
    assert_eq!(names(&tree), vec!["a", ".gitignore"]);
    let a = tree[0].children.as_ref().unwrap();
    assert_eq!(names(a), vec!["src"]);
    let src = a[0].children.as_ref().unwrap();
    assert_eq!(names(src), vec!["lib.rs"]);
}

#[test]
fn children_keep_walk_order_across_interleaving() {
    let entries = vec![
        entry(&["b"], true),
        entry(&["a"], false),
        entry(&["b", "y"], false),
        entry(&["c"], true),
        entry(&["b", "x"], false),
        entry(&["c", "d"], true),
        entry(&["c", "d", "e"], false),
    ];
    let tree = assemble_tree(&entries);
    assert_eq!(names(&tree), vec!["b", "a", "c"]);
    assert_eq!(names(tree[0].children.as_ref().unwrap()), vec!["y", "x"]);
    let c = tree[2].children.as_ref().unwrap();
    assert_eq!(names(c), vec!["d"]);
    assert_eq!(names(c[0].children.as_ref().unwrap()), vec!["e"]);
}

#[test]
fn same_name_in_different_directories() {
    let entries = vec![
        entry(&["p"], true),
        entry(&["q"], true),
        entry(&["q", "p"], true),
        entry(&["p", "f"], false),
        entry(&["q", "p", "g"], false),
    ];
    let tree = assemble_tree(&entries);
    assert_eq!(names(tree[0].children.as_ref().unwrap()), vec!["f"]);
    let q = tree[1].children.as_ref().unwrap();
    assert_eq!(names(q), vec!["p"]);
    assert_eq!(names(q[0].children.as_ref().unwrap()), vec!["g"]);
}

#[test]
fn no_entries_give_an_empty_tree() {
    let tree = assemble_tree(&Vec::new());
    assert!(tree.is_empty());
}
