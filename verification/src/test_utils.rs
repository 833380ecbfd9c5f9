//! A fixture: the entry list of a small mock repository.

use vstd::prelude::*;

verus! {

/// The entries of the mock repository, absolute from its parent.
pub fn get_mock_repo_vec() -> (r: Vec<&'static str>)
    ensures
        r@.map_values(|s: &str| s@) == seq![
            "user/root/repo/.github/workflows/ci.yaml"@,
            "user/root/repo/src/core/some_file.rs"@,
            "user/root/repo/src/core/some_file2.rs"@,
            "user/root/repo/python/cli/__init__.py"@,
            "user/root/repo/.venv/site-packages/__init__.py"@,
            "user/root/repo/README.md"@,
            "user/root/repo/scrap/some_file.rs"@,
            "user/root/repo/.pytest_cache/some_cache.py"@,
            "user/root/repo/target/some_build.rs"@,
            "user/root/repo/Cargo.toml"@,
            "user/root/repo/.hidden.toml"@,
        ],
{
    let mut r: Vec<&'static str> = Vec::new();
    r.push("user/root/repo/.github/workflows/ci.yaml");
    r.push("user/root/repo/src/core/some_file.rs");
    r.push("user/root/repo/src/core/some_file2.rs");
    r.push("user/root/repo/python/cli/__init__.py");
    r.push("user/root/repo/.venv/site-packages/__init__.py");
    r.push("user/root/repo/README.md");
    r.push("user/root/repo/scrap/some_file.rs");
    r.push("user/root/repo/.pytest_cache/some_cache.py");
    r.push("user/root/repo/target/some_build.rs");
    r.push("user/root/repo/Cargo.toml");
    r.push("user/root/repo/.hidden.toml");
    proof {
        assert(r@.map_values(|s: &str| s@) =~= seq![
            "user/root/repo/.github/workflows/ci.yaml"@,
            "user/root/repo/src/core/some_file.rs"@,
            "user/root/repo/src/core/some_file2.rs"@,
            "user/root/repo/python/cli/__init__.py"@,
            "user/root/repo/.venv/site-packages/__init__.py"@,
            "user/root/repo/README.md"@,
            "user/root/repo/scrap/some_file.rs"@,
            "user/root/repo/.pytest_cache/some_cache.py"@,
            "user/root/repo/target/some_build.rs"@,
            "user/root/repo/Cargo.toml"@,
            "user/root/repo/.hidden.toml"@,
        ]);
    }
    r
}

} // verus!
