use path_tree::{
    add_path_to_tree, add_path_to_tree_with_type, clean_components, generate_tree_from_components,
    insert_components, name_less, render_child, render_tree, resolve_kind, PathPart, TreeNode,
};

fn comps(items: &[&str]) -> Vec<String> {
    items.iter().map(|s| s.to_string()).collect()
}

fn listing(tree: &TreeNode) -> String {
    let mut out = String::new();
    render_tree(tree, &mut out, "");
    out
}

#[test]
fn resolve_table_rows() {
    assert!(resolve_kind(None, false, true));
    assert!(!resolve_kind(None, false, false));
    assert!(resolve_kind(Some(true), false, true));
    assert!(!resolve_kind(Some(true), false, false));
    assert!(resolve_kind(Some(false), false, true));
    assert!(!resolve_kind(Some(false), true, true));
    assert!(!resolve_kind(Some(false), false, false));
    assert!(!resolve_kind(Some(false), true, false));
}

#[test]
fn clean_components_drops_markers() {
    let parts = vec![
        PathPart::Prefix,
        PathPart::RootDir,
        PathPart::CurDir,
        PathPart::Normal("src".to_string()),
        PathPart::ParentDir,
        PathPart::Normal("lib.rs".to_string()),
    ];
    assert_eq!(clean_components(&parts), vec!["src", "..", "lib.rs"]);
    assert_eq!(clean_components(&vec![PathPart::RootDir]), Vec::<String>::new());
}

#[test]
fn components_batch_exact_text() {
    let batch = vec![comps(&["src", "lib.rs"]), comps(&["src", "main.rs"]), comps(&["Cargo.toml"])];
    assert_eq!(
        generate_tree_from_components(&batch),
        "Directory structure:\n├── src/\n│   ├── lib.rs\n│   └── main.rs\n└── Cargo.toml\n\n"
    );
    assert_eq!(generate_tree_from_components(&vec![]), "");
    assert_eq!(generate_tree_from_components(&vec![vec![]]), "");
    assert_eq!(generate_tree_from_components(&vec![vec![], comps(&["a"])]), "Directory structure:\n└── a\n\n");
}

#[test]
fn requested_directory_then_file_is_demoted() {
    let mut root = TreeNode::new();
    insert_components(&mut root, &comps(&["item"]), false);
    assert_eq!(listing(&root), "└── item/\n");
    insert_components(&mut root, &comps(&["item"]), true);
    assert_eq!(listing(&root), "└── item\n");
}

#[test]
fn file_promoted_by_request_and_by_descendant() {
    let mut root = TreeNode::new();
    add_path_to_tree(&mut root, "x");
    add_path_to_tree_with_type(&mut root, "x", false);
    assert_eq!(listing(&root), "└── x/\n");

    let mut root = TreeNode::new();
    add_path_to_tree(&mut root, "y");
    add_path_to_tree(&mut root, "y/z");
    add_path_to_tree(&mut root, "y");
    assert_eq!(listing(&root), "└── y/\n    └── z\n");
    assert!(!root.children[0].is_file);
    assert_eq!(root.children[0].children.len(), 1);
}

#[test]
fn empty_path_inserts_nothing() {
    let mut root = TreeNode::new();
    insert_components(&mut root, &vec![], true);
    add_path_to_tree(&mut root, "/");
    assert_eq!(root.children.len(), 0);
    assert_eq!(listing(&root), "");
}

#[test]
fn render_child_with_prefix() {
    let mut node = TreeNode::new_with_name("dir".to_string(), false);
    node.children.push(TreeNode::new_with_name("f".to_string(), true));
    let mut out = String::new();
    render_child(&node, &mut out, "│   ", false);
    assert_eq!(out, "│   ├── dir/\n│   │   └── f\n");
    let mut out = String::from("x");
    render_child(&node, &mut out, "", true);
    assert_eq!(out, "x└── dir/\n    └── f\n");
}

#[test]
fn name_order_is_by_character() {
    assert!(name_less(&"B".to_string(), &"a".to_string()));
    assert!(name_less(&"ab".to_string(), &"abc".to_string()));
    assert!(!name_less(&"abc".to_string(), &"abc".to_string()));
    assert!(!name_less(&"b".to_string(), &"abc".to_string()));
    assert!(name_less(&"".to_string(), &"a".to_string()));
    assert!(name_less(&"z".to_string(), &"é".to_string()));
}
