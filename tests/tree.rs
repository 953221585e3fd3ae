use path_tree::{generate_tree, clean_path_components};

fn paths(items: &[&str]) -> Vec<String> {
    items.iter().map(|s| s.to_string()).collect()
}

#[test]
fn test_generate_tree_empty() {
    let paths = vec![];
    let result = generate_tree(&paths);
    assert_eq!(result, "");
}

#[test]
fn test_generate_tree_single_file() {
    let paths = vec![String::from("README.md")];
    let result = generate_tree(&paths);
    assert!(result.contains("Directory structure:"));
    assert!(result.contains("└── README.md"));
}

#[test]
fn test_generate_tree_nested_structure() {
    let paths = vec![
        String::from("src/lib.rs"),
        String::from("src/main.rs"),
        String::from("Cargo.toml"),
        String::from("README.md"),
    ];
    let result = generate_tree(&paths);

    assert!(result.contains("Directory structure:"));
    assert!(result.contains("├── src/"));
    assert!(result.contains("│   ├── lib.rs"));
    assert!(result.contains("│   └── main.rs"));
    assert!(result.contains("├── Cargo.toml"));
    assert!(result.contains("└── README.md"));
}

#[test]
fn test_generate_tree_directories_before_files() {
    let paths = vec![String::from("file.txt"), String::from("dir/nested.rs")];
    let result = generate_tree(&paths);

    let dir_pos = result.find("├── dir/").unwrap_or(0);
    let file_pos = result.find("└── file.txt").unwrap_or(0);
    assert!(dir_pos < file_pos);
}

#[test]
fn test_final_component_always_treated_as_file() {
    let paths = vec![
        String::from("Makefile"),
        String::from("Dockerfile"),
        String::from("src/mod"),
        String::from("config.toml"),
        String::from("scripts/build"),
    ];
    let result = generate_tree(&paths);

    assert!(result.contains("├── scripts/"));
    assert!(result.contains("│   └── build"));
    assert!(result.contains("├── src/"));
    assert!(result.contains("│   └── mod"));
    assert!(result.contains("├── Dockerfile"));
    assert!(result.contains("├── Makefile"));
    assert!(result.contains("└── config.toml"));

    assert!(!result.contains("Dockerfile/"));
    assert!(!result.contains("Makefile/"));
    assert!(!result.contains("config.toml/"));
    assert!(!result.contains("build/"));
    assert!(!result.contains("mod/"));
}

#[test]
fn test_windows_path_component_filtering() {
    let components = clean_path_components("./src/../src/lib.rs");
    assert_eq!(components, vec!["src", "..", "src", "lib.rs"]);

    let components = clean_path_components("repo/src/lib.rs");
    assert_eq!(components, vec!["repo", "src", "lib.rs"]);
}

#[test]
fn test_path_normalization_in_tree() {
    let paths = vec![String::from("./src/lib.rs"), String::from("src/main.rs")];
    let result = generate_tree(&paths);

    assert!(result.contains("└── src/"));
    assert!(result.contains("    ├── lib.rs"));
    assert!(result.contains("    └── main.rs"));
    assert!(!result.contains("./"));
}

#[test]
fn test_duplicate_file_paths() {
    let paths = vec![
        String::from("src/lib.rs"),
        String::from("src/lib.rs"),
        String::from("src/main.rs"),
    ];
    let result = generate_tree(&paths);

    let lib_rs_count = result.matches("lib.rs").count();
    assert_eq!(lib_rs_count, 1, "lib.rs should appear only once, got: {}", result);

    assert!(result.contains("├── lib.rs"));
    assert!(result.contains("└── main.rs"));
}

#[test]
fn test_file_vs_directory_conflict() {
    let paths = vec![
        String::from("config/settings.json"),
        String::from("config"),
        String::from("readme.txt"),
    ];
    let result = generate_tree(&paths);

    assert!(result.contains("├── config/"));
    assert!(result.contains("│   └── settings.json"));
    assert!(result.contains("└── readme.txt"));

    let config_lines: Vec<&str> = result.lines().filter(|line| line.contains("config")).collect();
    assert_eq!(config_lines.len(), 1, "Config should appear only once as directory");
}

#[test]
fn test_empty_directory_becomes_file() {
    let paths = vec![String::from("item")];
    let result = generate_tree(&paths);

    assert!(result.contains("└── item"));
    assert!(!result.contains("item/"));
}

#[test]
fn test_processing_order_independence() {
    let paths1 = vec![
        String::from("src/lib.rs"),
        String::from("src/main.rs"),
        String::from("src"),
    ];
    let paths2 = vec![
        String::from("src"),
        String::from("src/lib.rs"),
        String::from("src/main.rs"),
    ];

    let result1 = generate_tree(&paths1);
    let result2 = generate_tree(&paths2);

    assert!(result1.contains("src/"));
    assert!(result1.contains("lib.rs"));
    assert!(result1.contains("main.rs"));

    assert!(result2.contains("src/"));
    assert!(result2.contains("lib.rs"));
    assert!(result2.contains("main.rs"));

    let result1_lines: Vec<&str> = result1.lines().filter(|l| !l.trim().is_empty()).collect();
    let result2_lines: Vec<&str> = result2.lines().filter(|l| !l.trim().is_empty()).collect();
    assert_eq!(result1_lines.len(), result2_lines.len());
}

#[test]
fn nested_listing_exact_text() {
    let result = generate_tree(&paths(&["src/lib.rs", "src/main.rs", "Cargo.toml", "README.md"]));
    assert_eq!(
        result,
        "Directory structure:\n├── src/\n│   ├── lib.rs\n│   └── main.rs\n├── Cargo.toml\n└── README.md\n\n"
    );
}

#[test]
fn single_path_is_one_entry_line() {
    let result = generate_tree(&paths(&["README.md"]));
    assert_eq!(result, "Directory structure:\n└── README.md\n\n");
    let entries: Vec<&str> = result.lines().filter(|l| l.ends_with("README.md")).collect();
    assert_eq!(entries, vec!["└── README.md"]);
}

#[test]
fn order_independence_gives_identical_text() {
    let a = generate_tree(&paths(&["src/lib.rs", "src/main.rs", "src"]));
    let b = generate_tree(&paths(&["src", "src/lib.rs", "src/main.rs"]));
    assert_eq!(a, b);
    assert_eq!(a, "Directory structure:\n└── src/\n    ├── lib.rs\n    └── main.rs\n\n");
    assert_eq!(a.lines().filter(|l| l.contains("src")).count(), 1);
}

#[test]
fn duplicate_path_changes_nothing() {
    let once = generate_tree(&paths(&["src/lib.rs"]));
    let twice = generate_tree(&paths(&["src/lib.rs", "src/lib.rs"]));
    assert_eq!(once, twice);
    assert_eq!(twice.lines().filter(|l| l.contains("lib.rs")).count(), 1);
}

#[test]
fn conflict_keeps_directory_once() {
    let result = generate_tree(&paths(&["config/settings.json", "config", "readme.txt"]));
    assert_eq!(
        result,
        "Directory structure:\n├── config/\n│   └── settings.json\n└── readme.txt\n\n"
    );
    let dir_lines = result.lines().filter(|l| l.ends_with("config/")).count();
    let file_lines = result.lines().filter(|l| l.ends_with("config")).count();
    assert_eq!((dir_lines, file_lines), (1, 0));
}

#[test]
fn siblings_directories_first_then_by_name() {
    let result = generate_tree(&paths(&["zebra.rs", "alpha/file.rs", "beta.rs", "gamma/file.rs"]));
    let alpha = result.find("alpha").unwrap();
    let gamma = result.find("gamma").unwrap();
    let beta = result.find("beta.rs").unwrap();
    let zebra = result.find("zebra.rs").unwrap();
    assert!(alpha < gamma && gamma < beta && beta < zebra);
    assert_eq!(
        result,
        "Directory structure:\n├── alpha/\n│   └── file.rs\n├── gamma/\n│   └── file.rs\n├── beta.rs\n└── zebra.rs\n\n"
    );
}

#[test]
fn names_sort_case_sensitively() {
    let result = generate_tree(&paths(&["b.txt", "a.txt", "B.txt", "A/x"]));
    assert_eq!(
        result,
        "Directory structure:\n├── A/\n│   └── x\n├── B.txt\n├── a.txt\n└── b.txt\n\n"
    );
}

#[test]
fn deep_prefixes_keep_bars_aligned() {
    let result = generate_tree(&paths(&["a/b/c.txt", "a/d.txt", "e.txt"]));
    assert_eq!(
        result,
        "Directory structure:\n├── a/\n│   ├── b/\n│   │   └── c.txt\n│   └── d.txt\n└── e.txt\n\n"
    );
}

#[test]
fn parent_reference_kept_as_name() {
    let result = generate_tree(&paths(&["../shared/x.rs"]));
    assert_eq!(result, "Directory structure:\n└── ../\n    └── shared/\n        └── x.rs\n\n");
}

#[test]
fn paths_without_names_give_empty_listing() {
    assert_eq!(generate_tree(&paths(&["/"])), "");
    assert_eq!(generate_tree(&paths(&["/", ".", ""])), "");
    assert_eq!(generate_tree(&paths(&["/", "a"])), "Directory structure:\n└── a\n\n");
}

#[test]
fn colon_inside_a_name_is_plain() {
    assert_eq!(clean_path_components("ab:c/d:e.txt"), vec!["ab:c", "d:e.txt"]);
}

#[test]
fn absolute_and_relative_paths_merge() {
    let result = generate_tree(&paths(&["/repo/a.rs", "repo/b.rs"]));
    assert_eq!(result, "Directory structure:\n└── repo/\n    ├── a.rs\n    └── b.rs\n\n");
}

#[test]
fn normalizer_drops_root_and_repeated_separators() {
    assert_eq!(clean_path_components("/abs//x/./y/"), vec!["abs", "x", "y"]);
    assert_eq!(clean_path_components(""), Vec::<String>::new());
    assert_eq!(clean_path_components("."), Vec::<String>::new());
    assert_eq!(clean_path_components("a/../.."), vec!["a", "..", ".."]);
}

#[test]
fn plain_paths_split_on_slashes_only() {
    assert_eq!(clean_path_components("/."), Vec::<String>::new());
    assert_eq!(clean_path_components("./."), Vec::<String>::new());
    assert_eq!(clean_path_components(".."), vec![".."]);
    assert_eq!(clean_path_components(".//a/.b/b./..."), vec!["a", ".b", "b.", "..."]);
    for name in clean_path_components("x//y/./z/../w/") {
        assert!(!name.is_empty() && name != "." && !name.contains('/'));
    }
}
