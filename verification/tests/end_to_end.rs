//! Whole runs of the pipeline against an in-memory filesystem.

use repo_mapper::adapters::{FakeFileSystem, StrMap};
use repo_mapper::converters::to_strings;
use repo_mapper::domain::RetCode;
use repo_mapper::pipeline::main;

fn mock_fs(current_readme: &str) -> FakeFileSystem {
    let pairs = [
        ("fake/repo/root/src/main.rs", "let x = 1;"),
        ("fake/repo/root/src/lib.rs", "use std;"),
        ("fake/repo/root/Cargo.toml", ""),
        ("fake/repo/root/README.md", current_readme),
        ("fake/repo/root/.gitignore", "target/"),
        ("fake/repo/root/target/some_build.rs", ""),
        ("fake/repo/root/.venv/site-packages/some_package.py", ""),
        ("fake/repo/root/scratch.py", ""),
        ("fake/repo/root/secrets/.env", ""),
    ];
    let mut files = StrMap::new();
    for (k, v) in pairs {
        files.insert(k.to_string(), v.to_string());
    }
    FakeFileSystem::new(files)
}

#[allow(clippy::too_many_arguments)]
fn check_run(
    readme_path: &str,
    gitignore_path: &str,
    allowed_exts: Vec<&str>,
    ignore_dirs: Vec<&str>,
    ignore_hidden: bool,
    dirs_only: bool,
    current_readme: &str,
    expected_result: Result<RetCode, RetCode>,
    expected_readme: &str,
) {
    let mut file_sys = mock_fs(current_readme);

    let exit_code = main(
        &mut file_sys,
        "fake/repo/root".to_string(),
        readme_path.to_string(),
        gitignore_path.to_string(),
        to_strings(allowed_exts),
        to_strings(ignore_dirs),
        ignore_hidden,
        dirs_only,
    );

    assert_eq!(exit_code, expected_result);
    assert_eq!(
        file_sys.files.get("fake/repo/root/README.md").unwrap(),
        expected_readme.to_string()
    );
}

#[test]
fn test_modify_readme_no_modification() {
    let block = "# Some readme\n\n\n# Repo map\n```\n├── src\n│   ├── lib.rs\n│   └── main.rs\n├── Cargo.toml\n└── README.md\n::\n```";
    check_run(
        "fake/repo/root/README.md",
        "fake/repo/root/.gitignore",
        vec!["rs", "md", "toml"],
        vec![".venv", "target"],
        true,
        false,
        block,
        Ok(RetCode::NoModification),
        block,
    );
}

#[test]
fn test_modify_readme_dirs_only() {
    check_run(
        "fake/repo/root/README.md",
        "fake/repo/root/.gitignore",
        vec!["rs", "md", "toml"],
        vec![".venv", "target"],
        true,
        true,
        "# Some readme\n\n\n# Repo map\n```\n├── src\n│   ├── lib.rs\n│   └── main.rs\n├── Cargo.toml\n└── README.md\n::\n```",
        Ok(RetCode::ModifiedReadme),
        "# Some readme\n\n\n# Repo map\n```\n└── src\n::\n```",
    );
}

#[test]
fn test_modify_readme_empty_ignore_dirs() {
    let block = "# Some readme\n`\n\n# Repo map\n```\n├── .venv\n│   └── site-packages\n│       └── some_package.py\n├── src\n│   ├── lib.rs\n│   └── main.rs\n├── Cargo.toml\n├── README.md\n└── scratch.py\n::\n```";
    check_run(
        "fake/repo/root/README.md",
        "fake/repo/root/.gitignore",
        vec!["rs", "md", "toml", "py"],
        vec![],
        true,
        false,
        block,
        Ok(RetCode::NoModification),
        block,
    );
}

#[test]
fn test_modify_readme_modified() {
    check_run(
        "fake/repo/root/README.md",
        "fake/repo/root/.gitignore",
        vec![],
        vec![".venv", "src"],
        true,
        false,
        "# Some readme\n",
        Ok(RetCode::ModifiedReadme),
        "# Some readme\n\n\n# Repo map\n```\n├── Cargo.toml\n├── README.md\n└── scratch.py\n::\n```",
    );
}

#[test]
fn test_modify_readme_keeps_hidden() {
    check_run(
        "fake/repo/root/README.md",
        "fake/repo/root/.gitignore",
        vec![],
        vec![".venv", "src"],
        false,
        false,
        "# Some readme\n",
        Ok(RetCode::ModifiedReadme),
        "# Some readme\n\n\n# Repo map\n```\n├── secrets\n│   └── .env\n├── .gitignore\n├── Cargo.toml\n├── README.md\n└── scratch.py\n::\n```",
    );
}

#[test]
fn test_modify_readme_wrong_readme_name() {
    check_run(
        "fake/repo/root/WRONG_README.txt",
        "fake/repo/root/.gitignore",
        vec![],
        vec![],
        true,
        false,
        "# Some readme\n",
        Err(RetCode::InvalidFilename),
        "# Some readme\n",
    );
}

#[test]
fn test_modify_readme_missing_readme() {
    check_run(
        "fake/repo/root/docs/README.md",
        "fake/repo/root/.gitignore",
        vec![],
        vec![],
        true,
        false,
        "# Some readme\n",
        Err(RetCode::FailedParsingFile),
        "# Some readme\n",
    );
}

#[test]
fn test_modify_readme_wrong_gitignore_name() {
    check_run(
        "fake/repo/root/README.md",
        "fake/repo/root/.gitdonotignore",
        vec![],
        vec![],
        true,
        false,
        "# Some readme\n",
        Err(RetCode::InvalidFilename),
        "# Some readme\n",
    );
}

#[test]
fn test_end_to_end_scenario() {
    let pairs = [
        ("root/src/main.rs", "fn main() {}"),
        ("root/src/lib.rs", ""),
        ("root/Cargo.toml", ""),
        ("root/README.md", "# Some readme\n"),
        ("root/.gitignore", "target/"),
        ("root/target/some_build.rs", ""),
        ("root/scratch.py", ""),
    ];
    let mut files = StrMap::new();
    for (k, v) in pairs {
        files.insert(k.to_string(), v.to_string());
    }
    let mut file_sys = FakeFileSystem::new(files);

    let exit_code = main(
        &mut file_sys,
        "root".to_string(),
        "root/README.md".to_string(),
        "root/.gitignore".to_string(),
        to_strings(vec!["rs", "md", "toml"]),
        to_strings(vec![".venv", "target"]),
        true,
        false,
    );

    assert_eq!(exit_code, Ok(RetCode::ModifiedReadme));
    assert_eq!(
        file_sys.files.get("root/README.md").unwrap(),
        "# Some readme\n\n\n# Repo map\n```\n├── src\n│   ├── lib.rs\n│   └── main.rs\n├── Cargo.toml\n└── README.md\n::\n```"
    );
}

#[test]
fn test_second_run_changes_nothing() {
    let mut file_sys = mock_fs("# Some readme\n");

    let first = main(
        &mut file_sys,
        "fake/repo/root".to_string(),
        "fake/repo/root/README.md".to_string(),
        "fake/repo/root/.gitignore".to_string(),
        to_strings(vec!["rs", "md", "toml"]),
        to_strings(vec![".venv", "target"]),
        true,
        false,
    );
    assert_eq!(first, Ok(RetCode::ModifiedReadme));
    let after_first = file_sys.files.get("fake/repo/root/README.md").unwrap();

    let second = main(
        &mut file_sys,
        "fake/repo/root".to_string(),
        "fake/repo/root/README.md".to_string(),
        "fake/repo/root/.gitignore".to_string(),
        to_strings(vec!["rs", "md", "toml"]),
        to_strings(vec![".venv", "target"]),
        true,
        false,
    );
    assert_eq!(second, Ok(RetCode::NoModification));
    assert_eq!(
        file_sys.files.get("fake/repo/root/README.md").unwrap(),
        after_first
    );
}
