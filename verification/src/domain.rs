//! The path-filtering stage: the predicate chain that decides which
//! filesystem entries are in scope, and the rewrite of each survivor to a
//! root-relative path.

use itertools::Itertools;
use vstd::prelude::*;

use crate::converters::StringSet;
use crate::paths::{
    is_hidden, is_seq_prefix, join_components, path_extension, seq_views, split_chars,
    split_components,
};
use crate::regexes::{regex_compiles, regex_matches, regex_try_match};
use crate::text::{chars_to_string, copy_chars, eq_chars, string_to_chars};

verus! {

/// The outcome of one pipeline run.
#[derive(Debug, PartialEq, Eq, Structural)]
pub enum RetCode {
    NoModification,
    ModifiedReadme,
    FailedParsingFile,
    FailedToWriteReadme,
    InvalidFilename,
}

/// The hidden-file predicate: when hidden entries are excluded, the final
/// component must not start with a dot.
pub open spec fn passes_hidden(p: Seq<char>, ignore_hidden: bool) -> bool {
    !ignore_hidden || !is_hidden(p)
}

/// The extension allow-list predicate: an empty list allows everything;
/// otherwise the path's extension must be a member.
pub open spec fn passes_ext(p: Seq<char>, allowed: Set<Seq<char>>) -> bool {
    allowed == Set::<Seq<char>>::empty() || match path_extension(p) {
        Some(e) => allowed.contains(e),
        None => false,
    }
}

/// The components of `p` after the root components `rs`, when `p` lies
/// under the root.
pub open spec fn rel_segs_of(p: Seq<char>, rs: Seq<Seq<char>>) -> Option<Seq<Seq<char>>> {
    let ps = split_components(p);
    if is_seq_prefix(rs, ps) {
        Some(ps.skip(rs.len() as int))
    } else {
        None
    }
}

/// The ignored-directory predicate: an empty set rejects nothing; otherwise
/// no root-relative component may name an ignored directory, and a path not
/// under the root is rejected.
pub open spec fn passes_ignore_dirs(p: Seq<char>, rs: Seq<Seq<char>>, dirs: Set<Seq<char>>) -> bool {
    dirs == Set::<Seq<char>>::empty() || match rel_segs_of(p, rs) {
        Some(segs) => forall|k: int| 0 <= k < segs.len() ==> !dirs.contains(segs[k]),
        None => false,
    }
}

/// The root-relativity predicate: the path must lie under the root.
pub open spec fn passes_root(p: Seq<char>, rs: Seq<Seq<char>>) -> bool {
    rel_segs_of(p, rs) is Some
}

/// The root-relative rewrite of a path that lies under the root.
pub open spec fn rel_of(p: Seq<char>, rs: Seq<Seq<char>>) -> Seq<char> {
    join_components(rel_segs_of(p, rs).unwrap())
}

/// The gitignore predicate: no pattern that compiles may match the
/// root-relative path.
pub open spec fn passes_gitignore(p: Seq<char>, rs: Seq<Seq<char>>, pats: Seq<Seq<char>>) -> bool {
    forall|k: int|
        0 <= k < pats.len() ==> !(regex_compiles(pats[k]) && regex_matches(
            pats[k],
            rel_of(p, rs),
        ))
}

/// A path is in scope exactly when it passes all five predicates.
pub open spec fn survives(
    p: Seq<char>,
    rs: Seq<Seq<char>>,
    allowed: Set<Seq<char>>,
    dirs: Set<Seq<char>>,
    pats: Seq<Seq<char>>,
    ignore_hidden: bool,
) -> bool {
    &&& passes_hidden(p, ignore_hidden)
    &&& passes_ext(p, allowed)
    &&& passes_ignore_dirs(p, rs, dirs)
    &&& passes_root(p, rs)
    &&& passes_gitignore(p, rs, pats)
}

/// The in-order root-relative rewrites of the paths that survive all
/// predicates; `rs` holds the root's components.
pub open spec fn spec_filter_paths(
    paths: Seq<Seq<char>>,
    rs: Seq<Seq<char>>,
    allowed: Set<Seq<char>>,
    dirs: Set<Seq<char>>,
    pats: Seq<Seq<char>>,
    ignore_hidden: bool,
) -> Seq<Seq<char>>
    decreases paths.len(),
{
    if paths.len() == 0 {
        Seq::empty()
    } else {
        spec_filter_paths(paths.drop_last(), rs, allowed, dirs, pats, ignore_hidden) + if survives(
            paths.last(),
            rs,
            allowed,
            dirs,
            pats,
            ignore_hidden,
        ) {
            seq![rel_of(paths.last(), rs)]
        } else {
            Seq::empty()
        }
    }
}

/// Decides the predicate chain for one path; returns its root-relative
/// rewrite when it survives.
#[verifier::loop_isolation(false)]
fn filter_one(
    p: &String,
    root_segs: &Vec<Vec<char>>,
    allowed_exts: &StringSet,
    ignore_dirs: &StringSet,
    patterns: &Vec<String>,
    ignore_hidden: bool,
) -> (r: Option<String>)
    ensures
        ({
            let rs = seq_views(root_segs@);
            let pats = patterns@.map_values(|s: String| s@);
            match r {
                Some(s) => survives(p@, rs, allowed_exts.as_set(), ignore_dirs.as_set(), pats, ignore_hidden)
                    && s@ == rel_of(p@, rs),
                None => !survives(p@, rs, allowed_exts.as_set(), ignore_dirs.as_set(), pats, ignore_hidden),
            }
        }),
{
    let ghost rs = seq_views(root_segs@);
    let ghost pats = patterns@.map_values(|s: String| s@);
    proof {
        allowed_exts.lemma_as_set_empty();
        ignore_dirs.lemma_as_set_empty();
    }
    let pchars = string_to_chars(p.as_str());
    let segs = split_chars(&pchars);
    proof {
        assert(seq_views(segs@) == split_components(p@));
    }

    // Hidden check: only the final component is inspected.
    if ignore_hidden && segs.len() > 0 {
        let last = &segs[segs.len() - 1];
        proof {
            assert(seq_views(segs@).last() == segs@[segs@.len() - 1]@);
        }
        if last.len() > 0 && last[0] == '.' {
            proof {
                assert(is_hidden(p@));
            }
            return None;
        }
    }
    proof {
        assert(passes_hidden(p@, ignore_hidden)) by {
            if ignore_hidden && segs@.len() > 0 {
                assert(seq_views(segs@).last() == segs@[segs@.len() - 1]@);
            }
        }
    }

    // Extension allow-list.
    if !allowed_exts.is_empty() {
        if segs.len() == 0 {
            return None;
        }
        let last = &segs[segs.len() - 1];
        proof {
            assert(seq_views(segs@).last() == segs@[segs@.len() - 1]@);
        }
        match crate::paths::extension_chars(last) {
            Some(e) => {
                if !allowed_exts.contains_chars(&e) {
                    return None;
                }
            },
            None => {
                return None;
            },
        }
    }
    proof {
        assert(passes_ext(p@, allowed_exts.as_set()));
    }

    // Root-relativity: the root's components must be a prefix.
    if segs.len() < root_segs.len() {
        proof {
            assert(!is_seq_prefix(rs, seq_views(segs@)));
        }
        return None;
    }
    let mut k: usize = 0;
    while k < root_segs.len()
        invariant
            k <= root_segs.len(),
            root_segs@.len() <= segs@.len(),
            rs == seq_views(root_segs@),
            seq_views(segs@) == split_components(p@),
            forall|j: int| 0 <= j < k ==> segs@[j]@ == root_segs@[j]@,
        decreases root_segs.len() - k,
    {
        if !eq_chars(&segs[k], &root_segs[k]) {
            proof {
                assert(rs[k as int] == root_segs@[k as int]@);
                assert(seq_views(segs@)[k as int] == segs@[k as int]@);
                assert(!is_seq_prefix(rs, seq_views(segs@))) by {
                    if is_seq_prefix(rs, seq_views(segs@)) {
                        let pre = seq_views(segs@).subrange(0, rs.len() as int);
                        assert(rs[k as int] == pre[k as int]);
                    }
                }
            }
            return None;
        }
        k += 1;
    }
    proof {
        assert(is_seq_prefix(rs, seq_views(segs@))) by {
            assert(rs =~= seq_views(segs@).subrange(0, rs.len() as int));
        }
    }

    // Root-relative components.
    let mut rel: Vec<Vec<char>> = Vec::new();
    let mut k2: usize = root_segs.len();
    while k2 < segs.len()
        invariant
            root_segs@.len() <= k2 <= segs@.len(),
            seq_views(rel@) =~= seq_views(segs@).subrange(root_segs@.len() as int, k2 as int),
        decreases segs.len() - k2,
    {
        let ghost old_rel = rel@;
        rel.push(copy_chars(&segs[k2]));
        k2 += 1;
        proof {
            assert(seq_views(rel@) =~= seq_views(old_rel).push(segs@[k2 - 1]@));
            assert(seq_views(rel@) =~= seq_views(segs@).subrange(
                root_segs@.len() as int,
                k2 as int,
            ));
        }
    }
    proof {
        assert(seq_views(rel@) =~= seq_views(segs@).skip(rs.len() as int));
        assert(rel_segs_of(p@, rs) == Some(seq_views(rel@)));
    }

    // Ignored-directory names anywhere under the root.
    if !ignore_dirs.is_empty() {
        let mut k3: usize = 0;
        while k3 < rel.len()
            invariant
                k3 <= rel@.len(),
                forall|j: int| 0 <= j < k3 ==> !ignore_dirs.contains_view(seq_views(rel@)[j]),
            decreases rel.len() - k3,
        {
            if ignore_dirs.contains_chars(&rel[k3]) {
                proof {
                    assert(ignore_dirs.as_set() != Set::<Seq<char>>::empty());
                    let segs = rel_segs_of(p@, rs)->Some_0;
                    assert(segs == seq_views(rel@));
                    assert(ignore_dirs.contains_view(segs[k3 as int]));
                    assert(!passes_ignore_dirs(p@, rs, ignore_dirs.as_set()));
                }
                return None;
            }
            k3 += 1;
        }
    }
    proof {
        assert(passes_ignore_dirs(p@, rs, ignore_dirs.as_set()));
    }

    // The root-relative rewrite used by the gitignore predicate and handed
    // onward.
    let rel_chars = crate::paths::join_chars(&rel);
    let rel_str = chars_to_string(&rel_chars);
    proof {
        assert(rel_str@ == rel_of(p@, rs));
    }

    // Gitignore patterns: a pattern that compiles and matches rejects.
    let mut k4: usize = 0;
    while k4 < patterns.len()
        invariant
            k4 <= patterns@.len(),
            pats == patterns@.map_values(|s: String| s@),
            rel_str@ == rel_of(p@, rs),
            forall|j: int|
                0 <= j < k4 ==> !(regex_compiles(pats[j]) && regex_matches(
                    pats[j],
                    rel_of(p@, rs),
                )),
        decreases patterns.len() - k4,
    {
        proof {
            assert(pats[k4 as int] == patterns@[k4 as int]@);
        }
        match regex_try_match(patterns[k4].as_str(), rel_str.as_str()) {
            Some(m) => {
                if m {
                    return None;
                }
            },
            None => {},
        }
        k4 += 1;
    }
    proof {
        assert(passes_gitignore(p@, rs, pats));
    }
    Some(rel_str)
}

/// Filters `paths` against the whole predicate chain and rewrites each
/// survivor relative to `root`, keeping the input order.
pub fn filter_paths(
    paths: Vec<String>,
    root: &String,
    allowed_exts: &StringSet,
    ignore_dirs: &StringSet,
    gitignored_patterns: &Vec<String>,
    ignore_hidden: bool,
) -> (r: Vec<String>)
    ensures
        r@.map_values(|s: String| s@) == spec_filter_paths(
            paths@.map_values(|s: String| s@),
            split_components(root@),
            allowed_exts.as_set(),
            ignore_dirs.as_set(),
            gitignored_patterns@.map_values(|s: String| s@),
            ignore_hidden,
        ),
{
    let ghost all = paths@.map_values(|s: String| s@);
    let ghost rs = split_components(root@);
    let ghost pats = gitignored_patterns@.map_values(|s: String| s@);
    let root_chars = string_to_chars(root.as_str());
    let root_segs = split_chars(&root_chars);
    let mut r: Vec<String> = Vec::new();
    let mut i: usize = 0;
    proof {
        assert(all.subrange(0, 0) =~= Seq::<Seq<char>>::empty());
        assert(r@.map_values(|s: String| s@) =~= spec_filter_paths(
            all.subrange(0, 0),
            rs,
            allowed_exts.as_set(),
            ignore_dirs.as_set(),
            pats,
            ignore_hidden,
        ));
    }
    while i < paths.len()
        invariant
            i <= paths.len(),
            all == paths@.map_values(|s: String| s@),
            pats == gitignored_patterns@.map_values(|s: String| s@),
            rs == seq_views(root_segs@),
            rs == split_components(root@),
            r@.map_values(|s: String| s@) == spec_filter_paths(
                all.subrange(0, i as int),
                rs,
                allowed_exts.as_set(),
                ignore_dirs.as_set(),
                pats,
                ignore_hidden,
            ),
        decreases paths.len() - i,
    {
        let ghost before = r@.map_values(|s: String| s@);
        match filter_one(
            &paths[i],
            &root_segs,
            allowed_exts,
            ignore_dirs,
            gitignored_patterns,
            ignore_hidden,
        ) {
            Some(s) => {
                proof {
                    assert(all[i as int] == paths@[i as int]@);
                }
                r.push(s);
                proof {
                    assert(r@.map_values(|s: String| s@) =~= before.push(
                        rel_of(all[i as int], rs),
                    ));
                }
            },
            None => {},
        }
        i += 1;
        proof {
            let pre = all.subrange(0, i as int);
            assert(pre.drop_last() =~= all.subrange(0, i - 1));
            assert(pre.last() == all[i - 1]);
            assert(all[i - 1] == paths@[i - 1]@);
            assert(r@.map_values(|s: String| s@) =~= spec_filter_paths(
                pre,
                rs,
                allowed_exts.as_set(),
                ignore_dirs.as_set(),
                pats,
                ignore_hidden,
            ));
        }
    }
    proof {
        assert(all.subrange(0, all.len() as int) =~= all);
    }
    r
}

/// Filter correctness: a root-relative path stands in the filtered list
/// exactly when some input path survives every predicate of the chain and
/// rewrites to it.
pub proof fn lemma_filter_correctness(
    paths: Seq<Seq<char>>,
    rs: Seq<Seq<char>>,
    allowed: Set<Seq<char>>,
    dirs: Set<Seq<char>>,
    pats: Seq<Seq<char>>,
    ignore_hidden: bool,
    rel: Seq<char>,
)
    ensures
        spec_filter_paths(paths, rs, allowed, dirs, pats, ignore_hidden).contains(rel)
            <==> exists|i: int|
            0 <= i < paths.len() && survives(#[trigger] paths[i], rs, allowed, dirs, pats,
            ignore_hidden) && rel_of(paths[i], rs) == rel,
    decreases paths.len(),
{
    if paths.len() == 0 {
    } else {
        let dl = paths.drop_last();
        lemma_filter_correctness(dl, rs, allowed, dirs, pats, ignore_hidden, rel);
        let whole = spec_filter_paths(paths, rs, allowed, dirs, pats, ignore_hidden);
        let front = spec_filter_paths(dl, rs, allowed, dirs, pats, ignore_hidden);
        let last = paths.last();
        let last_in = survives(last, rs, allowed, dirs, pats, ignore_hidden);
        assert(forall|j: int| 0 <= j < dl.len() ==> #[trigger] dl[j] == paths[j]);
        if whole.contains(rel) {
            let w = choose|w: int| 0 <= w < whole.len() && whole[w] == rel;
            if w < front.len() {
                assert(front[w] == rel);
                assert(front.contains(rel));
                let i = choose|i: int|
                    0 <= i < dl.len() && survives(#[trigger] dl[i], rs, allowed, dirs, pats,
                    ignore_hidden) && rel_of(dl[i], rs) == rel;
                assert(survives(paths[i], rs, allowed, dirs, pats, ignore_hidden));
            } else {
                assert(last_in && rel_of(last, rs) == rel);
                assert(survives(paths[paths.len() - 1], rs, allowed, dirs, pats, ignore_hidden));
            }
        }
        if exists|i: int|
            0 <= i < paths.len() && survives(#[trigger] paths[i], rs, allowed, dirs, pats,
            ignore_hidden) && rel_of(paths[i], rs) == rel {
            let i = choose|i: int|
                0 <= i < paths.len() && survives(#[trigger] paths[i], rs, allowed, dirs, pats,
                ignore_hidden) && rel_of(paths[i], rs) == rel;
            if i < paths.len() - 1 {
                assert(survives(dl[i], rs, allowed, dirs, pats, ignore_hidden));
                assert(front.contains(rel));
                let w = choose|w: int| 0 <= w < front.len() && front[w] == rel;
                assert(whole[w] == rel);
            } else {
                assert(whole[front.len() as int] == rel);
            }
        }
    }
}

/// The parent of a path: the path shorn of its final component, when it has
/// one.
pub open spec fn parent_of(p: Seq<char>) -> Option<Seq<char>> {
    let segs = split_components(p);
    if segs.len() == 0 {
        None
    } else {
        Some(join_components(segs.drop_last()))
    }
}

/// The in-order parents of the paths that have one.
pub open spec fn spec_parents(paths: Seq<Seq<char>>) -> Seq<Seq<char>>
    decreases paths.len(),
{
    if paths.len() == 0 {
        Seq::empty()
    } else {
        spec_parents(paths.drop_last()) + match parent_of(paths.last()) {
            Some(d) => seq![d],
            None => Seq::empty(),
        }
    }
}

/// `s` with each run of consecutive equal elements collapsed to its first.
pub open spec fn spec_dedup(s: Seq<Seq<char>>) -> Seq<Seq<char>>
    decreases s.len(),
{
    if s.len() == 0 {
        Seq::empty()
    } else if s.len() >= 2 && s.last() == s[s.len() - 2] {
        spec_dedup(s.drop_last())
    } else {
        spec_dedup(s.drop_last()) + seq![s.last()]
    }
}

/// One element placed into an ascending sequence, after any equal
/// elements.
pub open spec fn insert_lex(sorted: Seq<Seq<char>>, x: Seq<char>) -> Seq<Seq<char>>
    decreases sorted.len(),
{
    if sorted.len() == 0 {
        seq![x]
    } else if crate::text::lex_leq(sorted.last(), x) {
        sorted.push(x)
    } else {
        insert_lex(sorted.drop_last(), x).push(sorted.last())
    }
}

/// The stable ascending sort by the lexicographic order.
pub open spec fn lex_sort(s: Seq<Seq<char>>) -> Seq<Seq<char>>
    decreases s.len(),
{
    if s.len() == 0 {
        Seq::empty()
    } else {
        insert_lex(lex_sort(s.drop_last()), s.last())
    }
}

/// Relies on `itertools::Itertools::sorted`: an ascending stable sort by
/// `String`'s `Ord`, which orders strings lexicographically by character;
/// at the level of the strings' characters that is exactly the stable
/// insertion sort, a permutation in ascending order.
#[verifier::external_body]
fn sorted_strings(v: Vec<String>) -> (r: Vec<String>)
    ensures
        r@.map_values(|s: String| s@) == lex_sort(v@.map_values(|s: String| s@)),
        r@.map_values(|s: String| s@).to_multiset() == v@.map_values(
            |s: String| s@,
        ).to_multiset(),
        forall|i: int, j: int|
            0 <= i < j < r@.len() ==> crate::text::lex_leq(r@[i]@, r@[j]@),
{
    v.into_iter().sorted().collect()
}

/// Relies on `itertools::Itertools::dedup`: removes the later elements of
/// each run of consecutive equal elements.
#[verifier::external_body]
fn dedup_strings(v: Vec<String>) -> (r: Vec<String>)
    ensures
        r@.map_values(|s: String| s@) == spec_dedup(v@.map_values(|s: String| s@)),
{
    v.into_iter().dedup().collect()
}

/// Dedup keeps exactly the members of the sequence.
proof fn lemma_dedup_contains(s: Seq<Seq<char>>, x: Seq<char>)
    ensures
        spec_dedup(s).contains(x) <==> s.contains(x),
    decreases s.len(),
{
    if s.len() == 0 {
    } else {
        let dl = s.drop_last();
        lemma_dedup_contains(dl, x);
        assert(forall|j: int| 0 <= j < dl.len() ==> #[trigger] dl[j] == s[j]);
        let d = spec_dedup(s);
        let fr = spec_dedup(dl);
        if s.len() >= 2 && s.last() == s[s.len() - 2] {
            // The dropped duplicate is still present one slot earlier.
            if s.contains(x) {
                let w = choose|w: int| 0 <= w < s.len() && s[w] == x;
                if w == s.len() - 1 {
                    assert(dl[s.len() - 2] == x);
                    assert(dl.contains(x));
                } else {
                    assert(dl[w] == x);
                    assert(dl.contains(x));
                }
            }
        } else {
            if s.contains(x) {
                let w = choose|w: int| 0 <= w < s.len() && s[w] == x;
                if w == s.len() - 1 {
                    assert(d[fr.len() as int] == x);
                    assert(d.contains(x));
                } else {
                    assert(dl[w] == x);
                    assert(dl.contains(x));
                    let u = choose|u: int| 0 <= u < fr.len() && fr[u] == x;
                    assert(d[u] == x);
                    assert(d.contains(x));
                }
            }
            if d.contains(x) {
                let w = choose|w: int| 0 <= w < d.len() && d[w] == x;
                if w < fr.len() {
                    assert(fr[w] == x);
                    assert(fr.contains(x));
                    assert(s.contains(x));
                } else {
                    assert(s.last() == x);
                }
            }
        }
        if dl.contains(x) {
            let w = choose|w: int| 0 <= w < dl.len() && dl[w] == x;
            assert(s[w] == x);
        }
    }
}

/// Dedup of a sequence sorted by `lex_leq` is strictly sorted.
proof fn lemma_dedup_strictly_sorted(s: Seq<Seq<char>>)
    requires
        forall|i: int, j: int| 0 <= i < j < s.len() ==> crate::text::lex_leq(s[i], s[j]),
    ensures
        forall|i: int, j: int|
            0 <= i < j < spec_dedup(s).len() ==> crate::text::lex_lt(
                spec_dedup(s)[i],
                spec_dedup(s)[j],
            ),
    decreases s.len(),
{
    if s.len() == 0 {
    } else {
        let dl = s.drop_last();
        assert(forall|j: int| 0 <= j < dl.len() ==> #[trigger] dl[j] == s[j]);
        lemma_dedup_strictly_sorted(dl);
        let d = spec_dedup(s);
        let fr = spec_dedup(dl);
        if s.len() >= 2 && s.last() == s[s.len() - 2] {
        } else {
            // Every element of the front is strictly below the appended last.
            assert forall|i: int| 0 <= i < fr.len() implies crate::text::lex_lt(
                fr[i],
                s.last(),
            ) by {
                assert(fr.contains(fr[i]));
                lemma_dedup_contains(dl, fr[i]);
                let w = choose|w: int| 0 <= w < dl.len() && dl[w] == fr[i];
                assert(crate::text::lex_leq(s[w], s.last()));
                if s[w] == s.last() {
                    // A duplicate of the last element inside the front would
                    // sandwich the element before last into equality with it.
                    if s.len() == 1 {
                        assert(false);
                    } else {
                        assert(w < s.len() - 2);
                        assert(crate::text::lex_leq(s[w], s[s.len() - 2]));
                        assert(crate::text::lex_leq(s[s.len() - 2], s[s.len() - 1]));
                        assert(crate::text::lex_lt(s[w], s[s.len() - 2]));
                        assert(crate::text::lex_lt(s[s.len() - 2], s[s.len() - 1]));
                        crate::text::lemma_lex_lt_trans(s[w], s[s.len() - 2], s[s.len() - 1]);
                        crate::text::lemma_lex_lt_irrefl(s[w]);
                        assert(false);
                    }
                }
            }
            assert(forall|i: int, j: int| 0 <= i < j < d.len() ==> crate::text::lex_lt(d[i], d[j]))
                by {
                assert(forall|i: int| 0 <= i < fr.len() ==> d[i] == fr[i]);
                assert(d[d.len() - 1] == s.last());
            }
        }
    }
}

/// The deduplicated, sorted parents of the given paths: what the
/// directories-only view of the tree is built from.
pub open spec fn spec_dirnames(paths: Seq<Seq<char>>) -> Seq<Seq<char>> {
    spec_dedup(lex_sort(spec_parents(paths)))
}

/// The deduplicated, lexicographically sorted parents of the given paths.
pub fn filter_dirnames(paths: Vec<String>) -> (r: Vec<String>)
    ensures
        r@.map_values(|s: String| s@) == spec_dirnames(paths@.map_values(|s: String| s@)),
        forall|i: int, j: int|
            0 <= i < j < r@.len() ==> crate::text::lex_lt(r@[i]@, r@[j]@),
        forall|x: Seq<char>|
            crate::text::views_contain(r@, x) <==> spec_parents(
                paths@.map_values(|s: String| s@),
            ).contains(x),
{
    let ghost all = paths@.map_values(|s: String| s@);
    let mut parents: Vec<String> = Vec::new();
    let mut i: usize = 0;
    proof {
        assert(all.subrange(0, 0) =~= Seq::<Seq<char>>::empty());
        assert(parents@.map_values(|s: String| s@) =~= spec_parents(all.subrange(0, 0)));
    }
    while i < paths.len()
        invariant
            i <= paths.len(),
            all == paths@.map_values(|s: String| s@),
            parents@.map_values(|s: String| s@) == spec_parents(all.subrange(0, i as int)),
        decreases paths.len() - i,
    {
        let ghost before = parents@.map_values(|s: String| s@);
        let pchars = string_to_chars(paths[i].as_str());
        let mut segs = split_chars(&pchars);
        proof {
            assert(all[i as int] == paths@[i as int]@);
        }
        if segs.len() > 0 {
            let ghost whole = seq_views(segs@);
            segs.pop();
            proof {
                assert(seq_views(segs@) =~= whole.drop_last());
            }
            let joined = crate::paths::join_chars(&segs);
            let d = chars_to_string(&joined);
            proof {
                assert(d@ == parent_of(all[i as int])->Some_0);
            }
            parents.push(d);
            proof {
                assert(parents@.map_values(|s: String| s@) =~= before.push(
                    parent_of(all[i as int])->Some_0,
                ));
            }
        }
        i += 1;
        proof {
            let pre = all.subrange(0, i as int);
            assert(pre.drop_last() =~= all.subrange(0, i - 1));
            assert(pre.last() == all[i - 1]);
            assert(parents@.map_values(|s: String| s@) =~= spec_parents(pre));
        }
    }
    proof {
        assert(all.subrange(0, all.len() as int) =~= all);
    }
    let ghost pviews = parents@.map_values(|s: String| s@);
    let sorted = sorted_strings(parents);
    let r = dedup_strings(sorted);
    proof {
        let sviews = sorted@.map_values(|s: String| s@);
        let rviews = r@.map_values(|s: String| s@);
        lemma_dedup_strictly_sorted(sviews);
        assert forall|i: int, j: int|
            0 <= i < j < r@.len() implies crate::text::lex_lt(r@[i]@, r@[j]@) by {
            assert(rviews[i] == r@[i]@);
            assert(rviews[j] == r@[j]@);
            assert(crate::text::lex_lt(rviews[i], rviews[j]));
        }
        assert forall|x: Seq<char>|
            crate::text::views_contain(r@, x) <==> spec_parents(all).contains(x) by {
            lemma_dedup_contains(sviews, x);
            broadcast use vstd::seq_lib::group_to_multiset_ensures;

            assert(sviews.contains(x) <==> sviews.to_multiset().count(x) > 0);
            assert(pviews.contains(x) <==> pviews.to_multiset().count(x) > 0);
            if exists|w: int| 0 <= w < r@.len() && r@[w]@ == x {
                let w = choose|w: int| 0 <= w < r@.len() && r@[w]@ == x;
                assert(rviews[w] == x);
                assert(rviews.contains(x));
            }
            if spec_parents(all).contains(x) {
                assert(pviews.contains(x));
                assert(rviews.contains(x));
                let w = choose|w: int| 0 <= w < rviews.len() && rviews[w] == x;
                assert(r@[w]@ == x);
            }
        }
    }
    r
}

/// The root-relative rewrite of a newline-free path under the root is
/// newline-free.
proof fn lemma_rel_clean(p: Seq<char>, rs: Seq<Seq<char>>)
    requires
        crate::text::no_newline(p),
        rel_segs_of(p, rs) is Some,
    ensures
        crate::text::no_newline(rel_of(p, rs)),
{
    crate::paths::lemma_split_clean(p, Seq::empty());
    let segs = rel_segs_of(p, rs)->Some_0;
    let ps = split_components(p);
    assert forall|j: int|
        0 <= j < segs.len() implies crate::text::no_newline(#[trigger] segs[j]) by {
        assert(segs[j] == ps[j + rs.len()]);
    }
    crate::paths::lemma_join_clean(segs, '/');
}

/// Filtering newline-free paths yields newline-free rewrites.
pub proof fn lemma_filter_clean(
    paths: Seq<Seq<char>>,
    rs: Seq<Seq<char>>,
    allowed: Set<Seq<char>>,
    dirs: Set<Seq<char>>,
    pats: Seq<Seq<char>>,
    ignore_hidden: bool,
)
    requires
        forall|i: int| 0 <= i < paths.len() ==> crate::text::no_newline(#[trigger] paths[i]),
    ensures
        forall|j: int|
            0 <= j < spec_filter_paths(paths, rs, allowed, dirs, pats, ignore_hidden).len()
                ==> crate::text::no_newline(
                #[trigger] spec_filter_paths(paths, rs, allowed, dirs, pats, ignore_hidden)[j],
            ),
    decreases paths.len(),
{
    if paths.len() > 0 {
        let dl = paths.drop_last();
        assert(forall|i: int| 0 <= i < dl.len() ==> #[trigger] dl[i] == paths[i]);
        lemma_filter_clean(dl, rs, allowed, dirs, pats, ignore_hidden);
        let front = spec_filter_paths(dl, rs, allowed, dirs, pats, ignore_hidden);
        let whole = spec_filter_paths(paths, rs, allowed, dirs, pats, ignore_hidden);
        assert forall|j: int|
            0 <= j < whole.len() implies crate::text::no_newline(#[trigger] whole[j]) by {
            if j < front.len() {
                assert(whole[j] == front[j]);
            } else {
                assert(survives(paths.last(), rs, allowed, dirs, pats, ignore_hidden));
                assert(paths[paths.len() - 1] == paths.last());
                lemma_rel_clean(paths.last(), rs);
                assert(whole[j] == rel_of(paths.last(), rs));
            }
        }
    }
}

/// The parents of newline-free paths are newline-free.
proof fn lemma_parents_clean(paths: Seq<Seq<char>>)
    requires
        forall|i: int| 0 <= i < paths.len() ==> crate::text::no_newline(#[trigger] paths[i]),
    ensures
        forall|j: int|
            0 <= j < spec_parents(paths).len() ==> crate::text::no_newline(
                #[trigger] spec_parents(paths)[j],
            ),
    decreases paths.len(),
{
    if paths.len() > 0 {
        let dl = paths.drop_last();
        assert(forall|i: int| 0 <= i < dl.len() ==> #[trigger] dl[i] == paths[i]);
        lemma_parents_clean(dl);
        let front = spec_parents(dl);
        let whole = spec_parents(paths);
        assert forall|j: int|
            0 <= j < whole.len() implies crate::text::no_newline(#[trigger] whole[j]) by {
            if j < front.len() {
                assert(whole[j] == front[j]);
            } else {
                let p = paths.last();
                assert(paths[paths.len() - 1] == p);
                crate::paths::lemma_split_clean(p, Seq::empty());
                let segs = split_components(p);
                let par = segs.drop_last();
                assert forall|k: int|
                    0 <= k < par.len() implies crate::text::no_newline(#[trigger] par[k]) by {
                    assert(par[k] == segs[k]);
                }
                crate::paths::lemma_join_clean(par, '/');
                assert(whole[j] == join_components(par));
            }
        }
    }
}

/// Every element of an insertion is the inserted one or one of the others.
proof fn lemma_insert_lex_elems(sorted: Seq<Seq<char>>, x: Seq<char>)
    ensures
        forall|j: int|
            0 <= j < insert_lex(sorted, x).len() ==> #[trigger] insert_lex(sorted, x)[j] == x
                || sorted.contains(insert_lex(sorted, x)[j]),
    decreases sorted.len(),
{
    let out = insert_lex(sorted, x);
    if sorted.len() == 0 {
    } else if crate::text::lex_leq(sorted.last(), x) {
        assert forall|j: int|
            0 <= j < out.len() implies #[trigger] out[j] == x || sorted.contains(out[j]) by {
            if j < sorted.len() {
                assert(out[j] == sorted[j]);
            } else {
                assert(out[j] == x);
            }
        }
    } else {
        let dl = sorted.drop_last();
        assert(forall|i: int| 0 <= i < dl.len() ==> #[trigger] dl[i] == sorted[i]);
        lemma_insert_lex_elems(dl, x);
        let inner = insert_lex(dl, x);
        assert forall|j: int|
            0 <= j < out.len() implies #[trigger] out[j] == x || sorted.contains(out[j]) by {
            if j < inner.len() {
                assert(out[j] == inner[j]);
                if inner[j] != x {
                    assert(dl.contains(inner[j]));
                    let w = choose|w: int| 0 <= w < dl.len() && dl[w] == inner[j];
                    assert(sorted[w] == inner[j]);
                }
            } else {
                assert(out[j] == sorted.last());
                assert(sorted[sorted.len() - 1] == sorted.last());
            }
        }
    }
}

/// Every element of the sort is an element of the input.
proof fn lemma_lex_sort_elems(s: Seq<Seq<char>>)
    ensures
        forall|j: int| 0 <= j < lex_sort(s).len() ==> s.contains(#[trigger] lex_sort(s)[j]),
    decreases s.len(),
{
    if s.len() > 0 {
        let dl = s.drop_last();
        assert(forall|i: int| 0 <= i < dl.len() ==> #[trigger] dl[i] == s[i]);
        lemma_lex_sort_elems(dl);
        lemma_insert_lex_elems(lex_sort(dl), s.last());
        let out = lex_sort(s);
        assert forall|j: int| 0 <= j < out.len() implies s.contains(#[trigger] out[j]) by {
            if out[j] == s.last() {
                assert(s[s.len() - 1] == out[j]);
            } else {
                assert(lex_sort(dl).contains(out[j]));
                let w = choose|w: int| 0 <= w < lex_sort(dl).len() && lex_sort(dl)[w] == out[j];
                assert(dl.contains(lex_sort(dl)[w]));
                let u = choose|u: int| 0 <= u < dl.len() && dl[u] == out[j];
                assert(s[u] == out[j]);
            }
        }
    }
}

/// The directories-only view of newline-free paths is newline-free.
pub proof fn lemma_dirnames_clean(paths: Seq<Seq<char>>)
    requires
        forall|i: int| 0 <= i < paths.len() ==> crate::text::no_newline(#[trigger] paths[i]),
    ensures
        forall|j: int|
            0 <= j < spec_dirnames(paths).len() ==> crate::text::no_newline(
                #[trigger] spec_dirnames(paths)[j],
            ),
{
    lemma_parents_clean(paths);
    let parents = spec_parents(paths);
    let sorted = lex_sort(parents);
    lemma_lex_sort_elems(parents);
    let out = spec_dirnames(paths);
    assert forall|j: int|
        0 <= j < out.len() implies crate::text::no_newline(#[trigger] out[j]) by {
        assert(out[j] == spec_dedup(sorted)[j]);
        assert(spec_dedup(sorted).contains(out[j]));
        lemma_dedup_contains(sorted, out[j]);
        let w = choose|w: int| 0 <= w < sorted.len() && sorted[w] == out[j];
        assert(parents.contains(sorted[w]));
        let u = choose|u: int| 0 <= u < parents.len() && parents[u] == out[j];
        assert(crate::text::no_newline(parents[u]));
    }
}

} // verus!
