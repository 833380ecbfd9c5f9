//! The filter chain and the tree rendering, on the mock repository.

use repo_mapper::converters::{to_hashset, to_pathbufs, to_regex_vec};
use repo_mapper::domain::{filter_dirnames, filter_paths};
use repo_mapper::test_utils::get_mock_repo_vec;
use repo_mapper::tree::FileTree;

#[test]
fn test_filter_paths_ignore_hidden() {
    let paths = to_pathbufs(get_mock_repo_vec());

    let root = "user/root/repo".to_string();
    let allowed_exts = to_hashset(vec!["py", "rs", "toml"]);
    let ignore_dirs = to_hashset(Vec::<&str>::new());
    let gitignored_patterns =
        to_regex_vec(vec![r"(^|/)\.pytest_cache/(.*)?$", r"(^|/)target/(.*)?$"]);

    let expected_result: Vec<String> = to_pathbufs(vec![
        "src/core/some_file.rs",
        "src/core/some_file2.rs",
        "python/cli/__init__.py",
        ".venv/site-packages/__init__.py",
        "scrap/some_file.rs",
        "Cargo.toml",
    ]);

    let actual_result = filter_paths(
        paths,
        &root,
        &allowed_exts,
        &ignore_dirs,
        &gitignored_patterns,
        true,
    );

    assert_eq!(actual_result, expected_result);
}

#[test]
fn test_filter_paths_process_hidden() {
    let paths = to_pathbufs(get_mock_repo_vec());

    let root = "user/root/repo".to_string();
    let allowed_exts = to_hashset(Vec::<&str>::new());
    let ignore_dirs = to_hashset(vec!["scrap", ".venv"]);
    let gitignored_patterns =
        to_regex_vec(vec![r"(^|/)\.pytest_cache/(.*)?$", r"(^|/)target/(.*)?$"]);

    let expected_result: Vec<String> = to_pathbufs(vec![
        ".github/workflows/ci.yaml",
        "src/core/some_file.rs",
        "src/core/some_file2.rs",
        "python/cli/__init__.py",
        "README.md",
        "Cargo.toml",
        ".hidden.toml",
    ]);

    let actual_result = filter_paths(
        paths,
        &root,
        &allowed_exts,
        &ignore_dirs,
        &gitignored_patterns,
        false,
    );

    assert_eq!(actual_result, expected_result);
}

#[test]
fn test_file_tree() {
    let paths = to_pathbufs(vec![
        ".github/workflows/ci.yaml",
        "src/core/some_file.rs",
        "src/core/some_file2.rs",
        "python/cli/__init__.py",
        "README.md",
        "Cargo.toml",
    ]);

    let expected_result = [
        "# Repo map",
        "```",
        "├── .github",
        "│   └── workflows",
        "│       └── ci.yaml",
        "├── python",
        "│   └── cli",
        "│       └── __init__.py",
        "├── src",
        "│   └── core",
        "│       ├── some_file.rs",
        "│       └── some_file2.rs",
        "├── Cargo.toml",
        "└── README.md",
        "::",
        "```",
    ]
    .into_iter()
    .map(str::to_string)
    .collect::<Vec<String>>()
    .join("\n");

    let actual_result = FileTree::new().create_map(paths).render();

    assert_eq!(actual_result, expected_result);
}

#[test]
fn test_file_tree_order_independent() {
    let forward = to_pathbufs(vec![
        "src/lib.rs",
        "src/main.rs",
        "Cargo.toml",
        "README.md",
    ]);
    let backward = to_pathbufs(vec![
        "README.md",
        "Cargo.toml",
        "src/main.rs",
        "src/lib.rs",
    ]);

    let expected = "# Repo map\n```\n├── src\n│   ├── lib.rs\n│   └── main.rs\n├── Cargo.toml\n└── README.md\n::\n```";

    assert_eq!(FileTree::new().create_map(forward).render(), expected);
    assert_eq!(FileTree::new().create_map(backward).render(), expected);
}

#[test]
fn test_file_tree_empty() {
    let rendered = FileTree::new().create_map(Vec::new()).render();
    assert_eq!(rendered, "# Repo map\n```\n\n::\n```");
}

#[test]
fn test_filter_dirnames_sorted_dedup() {
    let paths = to_pathbufs(vec![
        "src/main.rs",
        "src/lib.rs",
        "Cargo.toml",
        "README.md",
        "docs/guide/intro.md",
    ]);
    let dirs = filter_dirnames(paths);
    assert_eq!(dirs, vec!["", "docs/guide", "src"]);
}
