//! The orchestrator: one linear run from the input arguments to an outcome
//! code, with an early exit on the first failure.
//!
//! The run parses the README and the gitignore file, lists the entries
//! under the root, filters them, builds and renders the tree — of the
//! parent directories alone when asked — splices the rendering into the
//! README, and writes the result back only when it differs.

use vstd::prelude::*;

use crate::adapters::FileSystem;
use crate::converters::{set_of_views, StringSet};
use crate::domain::{spec_dirnames, spec_filter_paths, RetCode};
use crate::parsing::{
    gitignore_basename, readme_basename, spec_parse_file, spec_parse_lines, spec_update,
    GitIgnore, ReadMe,
};
use crate::paths::split_components;
use crate::tree::{empty_model, fold_insert, spec_render, FileTree};

verus! {

/// The run's arguments, with the allow- and ignore-lists read into sets.
#[derive(Debug)]
pub struct Args {
    pub repo_root: String,
    pub readme_path: String,
    pub gitignore_path: String,
    pub allowed_exts: StringSet,
    pub ignore_dirs: StringSet,
    pub ignore_hidden: bool,
}

impl PartialEq for Args {
    /// Two argument bundles are equal when every part matches.
    fn eq(&self, other: &Args) -> (r: bool) {
        self.repo_root == other.repo_root && self.readme_path == other.readme_path
            && self.gitignore_path == other.gitignore_path && strings_eq(
            &self.allowed_exts.items,
            &other.allowed_exts.items,
        ) && strings_eq(&self.ignore_dirs.items, &other.ignore_dirs.items)
            && self.ignore_hidden == other.ignore_hidden
    }
}

impl vstd::std_specs::cmp::PartialEqSpecImpl for Args {
    open spec fn obeys_eq_spec() -> bool {
        true
    }

    open spec fn eq_spec(&self, other: &Args) -> bool {
        &&& self.repo_root@ == other.repo_root@
        &&& self.readme_path@ == other.readme_path@
        &&& self.gitignore_path@ == other.gitignore_path@
        &&& self.allowed_exts.items@.map_values(|s: String| s@)
            == other.allowed_exts.items@.map_values(|s: String| s@)
        &&& self.ignore_dirs.items@.map_values(|s: String| s@)
            == other.ignore_dirs.items@.map_values(|s: String| s@)
        &&& self.ignore_hidden == other.ignore_hidden
    }
}

/// Whether two string vectors hold the same texts in the same order.
fn strings_eq(a: &Vec<String>, b: &Vec<String>) -> (r: bool)
    ensures
        r == (a@.map_values(|s: String| s@) == b@.map_values(|s: String| s@)),
{
    if a.len() != b.len() {
        proof {
            assert(a@.map_values(|s: String| s@).len() != b@.map_values(|s: String| s@).len());
        }
        return false;
    }
    let mut i: usize = 0;
    while i < a.len()
        invariant
            a@.len() == b@.len(),
            i <= a.len(),
            forall|k: int| 0 <= k < i ==> a@[k]@ == b@[k]@,
        decreases a.len() - i,
    {
        if !(a[i] == b[i]) {
            proof {
                assert(a@.map_values(|s: String| s@)[i as int] != b@.map_values(
                    |s: String| s@,
                )[i as int]);
            }
            return false;
        }
        i += 1;
    }
    proof {
        assert(a@.map_values(|s: String| s@) =~= b@.map_values(|s: String| s@));
    }
    true
}

impl Args {
    /// Bundles the raw arguments, reading the two lists into sets.
    pub fn new(
        repo_root: String,
        readme_path: String,
        gitignore_path: String,
        allowed_exts: Vec<String>,
        ignore_dirs: Vec<String>,
        ignore_hidden: bool,
    ) -> (r: Args)
        ensures
            r.repo_root@ == repo_root@,
            r.readme_path@ == readme_path@,
            r.gitignore_path@ == gitignore_path@,
            r.allowed_exts.as_set() == set_of_views(allowed_exts@),
            r.allowed_exts.spec_is_empty() <==> allowed_exts@.len() == 0,
            r.ignore_dirs.as_set() == set_of_views(ignore_dirs@),
            r.ignore_dirs.spec_is_empty() <==> ignore_dirs@.len() == 0,
            r.ignore_hidden == ignore_hidden,
    {
        let allowed = StringSet::from_strings(&allowed_exts);
        let dirs = StringSet::from_strings(&ignore_dirs);
        proof {
            assert(allowed.as_set() =~= set_of_views(allowed_exts@));
            assert(dirs.as_set() =~= set_of_views(ignore_dirs@));
        }
        Args {
            repo_root,
            readme_path,
            gitignore_path,
            allowed_exts: allowed,
            ignore_dirs: dirs,
            ignore_hidden,
        }
    }
}

/// The rendered block a run produces from the listed entries.
pub open spec fn spec_block(
    listing: Seq<Seq<char>>,
    root: Seq<char>,
    allowed: Set<Seq<char>>,
    dirs: Set<Seq<char>>,
    gitignore_text: Seq<char>,
    ignore_hidden: bool,
    dirs_only: bool,
) -> Seq<char> {
    let pats = spec_parse_lines(gitignore_text);
    let filtered = spec_filter_paths(
        listing,
        split_components(root),
        allowed,
        dirs,
        pats,
        ignore_hidden,
    );
    let paths = if dirs_only {
        spec_dirnames(filtered)
    } else {
        filtered
    };
    spec_render(fold_insert(empty_model(), paths))
}

/// What a run computes before any write: a failure code, or the updated
/// README text — possibly equal to the old one.
pub open spec fn spec_pipeline(
    files: Map<Seq<char>, Seq<char>>,
    listing: Seq<Seq<char>>,
    root: Seq<char>,
    readme_path: Seq<char>,
    gitignore_path: Seq<char>,
    allowed: Set<Seq<char>>,
    dirs: Set<Seq<char>>,
    ignore_hidden: bool,
    dirs_only: bool,
) -> Result<Seq<char>, RetCode> {
    match spec_parse_file(files, readme_path, readme_basename()) {
        Err(e) => Err(e),
        Ok(readme) => match spec_parse_file(files, gitignore_path, gitignore_basename()) {
            Err(e) => Err(e),
            Ok(gitignore) => Ok(
                spec_update(
                    readme,
                    spec_block(listing, root, allowed, dirs, gitignore, ignore_hidden, dirs_only),
                ),
            ),
        },
    }
}

/// Idempotence: after a run that reached the splice, a second run over the
/// written files computes the same README text, so it finds nothing to
/// modify and leaves the document byte-identical. Two input families stand
/// outside the law: a listing entry whose name holds a newline, and a
/// README holding a header line that no terminator ever follows — there the
/// first splice swallows the text from that header to the appended block.
pub proof fn lemma_pipeline_idempotent(
    files: Map<Seq<char>, Seq<char>>,
    listing: Seq<Seq<char>>,
    root: Seq<char>,
    readme_path: Seq<char>,
    gitignore_path: Seq<char>,
    allowed: Set<Seq<char>>,
    dirs: Set<Seq<char>>,
    ignore_hidden: bool,
    dirs_only: bool,
)
    requires
        forall|i: int|
            0 <= i < listing.len() ==> crate::text::no_newline(#[trigger] listing[i]),
        spec_pipeline(
            files,
            listing,
            root,
            readme_path,
            gitignore_path,
            allowed,
            dirs,
            ignore_hidden,
            dirs_only,
        ) is Ok,
        ({
            let readme0 = files[readme_path];
            crate::parsing::find_header_from(readme0, 0) >= 0
                ==> crate::parsing::find_end_from(
                readme0,
                crate::parsing::find_header_from(readme0, 0) + 14,
            ) >= 0
        }),
    ensures
        ({
            let updated = spec_pipeline(
                files,
                listing,
                root,
                readme_path,
                gitignore_path,
                allowed,
                dirs,
                ignore_hidden,
                dirs_only,
            )->Ok_0;
            spec_pipeline(
                files.insert(readme_path, updated),
                listing,
                root,
                readme_path,
                gitignore_path,
                allowed,
                dirs,
                ignore_hidden,
                dirs_only,
            ) == Ok::<Seq<char>, RetCode>(updated)
        }),
{
    let readme0 = files[readme_path];
    let gi = files[gitignore_path];
    let block = spec_block(listing, root, allowed, dirs, gi, ignore_hidden, dirs_only);
    let updated = spec_update(readme0, block);

    // The two control paths differ: their required basenames do.
    assert(readme_basename() != gitignore_basename()) by {
        assert(readme_basename()[0] == 'R');
        assert(gitignore_basename()[0] == '.');
    }
    assert(readme_path != gitignore_path);
    let files2 = files.insert(readme_path, updated);
    assert(files2[readme_path] == updated);
    assert(files2.contains_key(gitignore_path) && files2[gitignore_path] == gi);

    // The rendered block is well formed: the tree it renders is clean,
    // since no listed name holds a newline.
    let pats = spec_parse_lines(gi);
    let rs = split_components(root);
    let filtered = spec_filter_paths(listing, rs, allowed, dirs, pats, ignore_hidden);
    crate::domain::lemma_filter_clean(listing, rs, allowed, dirs, pats, ignore_hidden);
    let paths = if dirs_only {
        spec_dirnames(filtered)
    } else {
        filtered
    };
    if dirs_only {
        crate::domain::lemma_dirnames_clean(filtered);
    }
    assert(crate::tree::clean_model(empty_model())) by {
        assert(crate::tree::clean_children(empty_model().children, 0));
    }
    crate::tree::lemma_fold_insert_clean(empty_model(), paths);
    crate::tree::lemma_render_wf(fold_insert(empty_model(), paths));
    assert(block == spec_render(fold_insert(empty_model(), paths)));

    // Splicing the same block into the spliced document changes nothing.
    crate::parsing::lemma_update_idempotent(readme0, block);
    assert(spec_update(updated, block) == updated);
}

/// One run: parse the control files, list, filter, render, splice, and
/// write the README back only when its text changed.
pub fn main<FS: FileSystem>(
    file_sys: &mut FS,
    repo_root: String,
    readme_path: String,
    gitignore_path: String,
    allowed_exts: Vec<String>,
    ignore_dirs: Vec<String>,
    ignore_hidden: bool,
    dirs_only: bool,
) -> (r: Result<RetCode, RetCode>)
    ensures
        ({
            let files0 = old(file_sys).files();
            let listing0 = old(file_sys).listing(repo_root@);
            match spec_pipeline(
                files0,
                listing0,
                repo_root@,
                readme_path@,
                gitignore_path@,
                set_of_views(allowed_exts@),
                set_of_views(ignore_dirs@),
                ignore_hidden,
                dirs_only,
            ) {
                Err(code) => r == Err::<RetCode, RetCode>(code) && final(file_sys).files()
                    == files0 && (forall|rt: Seq<char>|
                    final(file_sys).listing(rt) == old(file_sys).listing(rt)),
                Ok(updated) => if updated == files0[readme_path@] {
                    &&& r == Ok::<RetCode, RetCode>(RetCode::NoModification)
                    &&& final(file_sys).files() == files0
                    &&& forall|rt: Seq<char>|
                        final(file_sys).listing(rt) == old(file_sys).listing(rt)
                } else {
                    ||| {
                        &&& r == Ok::<RetCode, RetCode>(RetCode::ModifiedReadme)
                        &&& final(file_sys).files() == files0.insert(readme_path@, updated)
                        &&& forall|rt: Seq<char>|
                            final(file_sys).listing(rt) == old(file_sys).listing(rt)
                    }
                    ||| {
                        &&& r == Err::<RetCode, RetCode>(RetCode::FailedToWriteReadme)
                        &&& final(file_sys).files() == files0
                    }
                },
            }
        }),
{
    let ghost files0 = old(file_sys).files();
    let ghost listing0 = old(file_sys).listing(repo_root@);
    let args = Args::new(
        repo_root,
        readme_path,
        gitignore_path,
        allowed_exts,
        ignore_dirs,
        ignore_hidden,
    );

    let readme = match ReadMe::parse(file_sys, args.readme_path.as_str()) {
        Ok(m) => m,
        Err(e) => {
            return Err(e);
        },
    };
    let gitignore = match GitIgnore::parse(file_sys, args.gitignore_path.as_str()) {
        Ok(g) => g,
        Err(e) => {
            return Err(e);
        },
    };
    let listed = file_sys.list_files(args.repo_root.as_str());

    let patterns = gitignore.parse_lines();
    let filtered = crate::domain::filter_paths(
        listed,
        &args.repo_root,
        &args.allowed_exts,
        &args.ignore_dirs,
        &patterns,
        args.ignore_hidden,
    );
    let ghost aset = set_of_views(allowed_exts@);
    let ghost dset = set_of_views(ignore_dirs@);
    let ghost pats = spec_parse_lines(gitignore.text@);
    let ghost filtered_spec = spec_filter_paths(
        listing0,
        split_components(repo_root@),
        aset,
        dset,
        pats,
        ignore_hidden,
    );
    proof {
        assert(filtered@.map_values(|s: String| s@) == filtered_spec);
    }
    let final_paths = if dirs_only {
        crate::domain::filter_dirnames(filtered)
    } else {
        filtered
    };
    proof {
        assert(final_paths@.map_values(|s: String| s@) == if dirs_only {
            spec_dirnames(filtered_spec)
        } else {
            filtered_spec
        });
    }

    let tree = FileTree::new().create_map(final_paths);
    let rendered = tree.render();
    proof {
        assert(rendered@ == spec_block(
            listing0,
            repo_root@,
            aset,
            dset,
            gitignore.text@,
            ignore_hidden,
            dirs_only,
        ));
    }
    let modified_readme = readme.update_readme(rendered);
    proof {
        assert(readme.text@ == files0[readme_path@]);
        assert(spec_pipeline(
            files0,
            listing0,
            repo_root@,
            readme_path@,
            gitignore_path@,
            set_of_views(allowed_exts@),
            set_of_views(ignore_dirs@),
            ignore_hidden,
            dirs_only,
        ) == Ok::<Seq<char>, RetCode>(modified_readme.text@));
    }

    if !(modified_readme == readme) {
        match modified_readme.write(file_sys, args.readme_path.as_str()) {
            Ok(_) => {
                return Ok(RetCode::ModifiedReadme);
            },
            Err(_) => {
                return Err(RetCode::FailedToWriteReadme);
            },
        }
    }
    Ok(RetCode::NoModification)
}

} // verus!
