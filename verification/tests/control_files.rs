//! Argument bundling, gitignore translation, and the README splice.

use repo_mapper::converters::{to_hashset, to_regex_vec};
use repo_mapper::parsing::{GitIgnore, ReadMe};
use repo_mapper::pipeline::Args;

#[test]
fn test_args() {
    let args = Args::new(
        "root".to_string(),
        "readme.md".to_string(),
        ".gitignore".to_string(),
        vec!["py".to_string(), "rs".to_string()],
        vec![],
        true,
    );

    let expected_result = Args {
        repo_root: "root".to_string(),
        readme_path: "readme.md".to_string(),
        gitignore_path: ".gitignore".to_string(),
        allowed_exts: to_hashset(vec!["py", "rs"]),
        ignore_dirs: to_hashset(Vec::<&str>::new()),
        ignore_hidden: true,
    };

    assert_eq!(args, expected_result);
}

#[test]
fn test_gitignore() {
    let gitignore = GitIgnore::from_string(".pytest_cache/\n*.log\n?scratch.py".to_string());

    let actual_result = gitignore.parse_lines();
    let expected_result = to_regex_vec(vec![
        "(^|/)\\.pytest_cache/(.*)?$",
        "(^|/)[^/]*\\.log$",
        "(^|/).scratch\\.py$",
    ]);

    assert_eq!(actual_result, expected_result);
}

#[test]
fn test_gitignore_skips_blank_and_comment() {
    let gitignore = GitIgnore::from_string("# build output\n\n   \ntarget/\n".to_string());
    assert_eq!(gitignore.parse_lines(), vec!["(^|/)target/(.*)?$"]);
}

#[test]
fn test_gitignore_drops_lines_that_do_not_compile() {
    let gitignore = GitIgnore::from_string("foo[\n*.log".to_string());
    assert_eq!(gitignore.parse_lines(), vec!["(^|/)[^/]*\\.log$"]);
}

#[test]
fn test_readme_update_appends() {
    let readme = ReadMe::from_string("#Some readme".to_string());
    let updated = readme.update_readme("appended".to_string());
    assert_eq!(updated.text, "#Some readme\n\nappended");
}

#[test]
fn test_readme_update_replaces() {
    let readme = ReadMe::from_string(
        "#Some readme\n# Repo map\n```\noriginal\n::\n```\n#Some line afterwards".to_string(),
    );
    let updated = readme.update_readme("# Repo map\n```\nmodified\n::\n```".to_string());
    assert_eq!(
        updated,
        ReadMe::from_string(
            "#Some readme\n# Repo map\n```\nmodified\n::\n```\n#Some line afterwards".to_string()
        ),
    );
}

#[test]
fn test_readme_update_is_idempotent() {
    let block = "# Repo map\n```\n└── src\n::\n```".to_string();
    let once = ReadMe::from_string("# Some readme\n".to_string()).update_readme(block.clone());
    let twice = once.update_readme(block);
    assert_eq!(once, twice);
}

#[test]
fn test_readme_update_ignores_header_without_terminator() {
    let readme = ReadMe::from_string("# Repo map\n```\nno closing line".to_string());
    let updated = readme.update_readme("new block".to_string());
    assert_eq!(updated.text, "# Repo map\n```\nno closing line\n\nnew block");
}
