//! A plain-string model of filesystem paths.
//!
//! A path is a string whose components are separated by `/`. Splitting drops
//! empty components, so repeated or trailing separators do not produce
//! components of their own. The final component is the file name; an
//! extension is what follows the last `.` of the file name, provided that
//! dot is not its first character.

use vstd::prelude::*;

verus! {

/// The views of a sequence of character vectors.
pub open spec fn seq_views(s: Seq<Vec<char>>) -> Seq<Seq<char>> {
    s.map_values(|v: Vec<char>| v@)
}

/// Splits `p` on `/` with `cur` as the segment accumulated so far.
pub open spec fn split_loop(p: Seq<char>, cur: Seq<char>) -> Seq<Seq<char>>
    decreases p.len(),
{
    if p.len() == 0 {
        if cur.len() == 0 {
            Seq::empty()
        } else {
            seq![cur]
        }
    } else if p[0] == '/' {
        (if cur.len() == 0 {
            Seq::empty()
        } else {
            seq![cur]
        }) + split_loop(p.drop_first(), Seq::empty())
    } else {
        split_loop(p.drop_first(), cur.push(p[0]))
    }
}

/// The non-empty `/`-separated components of a path.
pub open spec fn split_components(p: Seq<char>) -> Seq<Seq<char>> {
    split_loop(p, Seq::empty())
}

/// Splits a character vector into its path components.
pub fn split_chars(p: &Vec<char>) -> (r: Vec<Vec<char>>)
    ensures
        seq_views(r@) == split_components(p@),
{
    let mut r: Vec<Vec<char>> = Vec::new();
    let mut cur: Vec<char> = Vec::new();
    let mut i: usize = 0;
    proof {
        assert(p@.subrange(0, p@.len() as int) =~= p@);
        assert(seq_views(r@) + split_loop(p@, cur@) =~= split_components(p@));
    }
    while i < p.len()
        invariant
            i <= p.len(),
            split_components(p@) == seq_views(r@) + split_loop(
                p@.subrange(i as int, p@.len() as int),
                cur@,
            ),
        decreases p.len() - i,
    {
        let ghost rest = p@.subrange(i as int, p@.len() as int);
        proof {
            assert(rest[0] == p@[i as int]);
            assert(rest.drop_first() =~= p@.subrange(i + 1 as int, p@.len() as int));
        }
        if p[i] == '/' {
            if cur.len() > 0 {
                let ghost old_r = r@;
                let ghost old_cur = cur@;
                r.push(cur);
                cur = Vec::new();
                proof {
                    assert(cur@ =~= Seq::<char>::empty());
                    assert(seq_views(r@) =~= seq_views(old_r).push(old_cur));
                    assert(seq_views(old_r) + split_loop(rest, old_cur) =~= seq_views(r@)
                        + split_loop(rest.drop_first(), cur@));
                }
            } else {
                proof {
                    assert(cur@ =~= Seq::<char>::empty());
                    assert(seq_views(r@) + split_loop(rest, cur@) =~= seq_views(r@) + split_loop(
                        rest.drop_first(),
                        cur@,
                    ));
                }
            }
        } else {
            let ghost old_cur = cur@;
            cur.push(p[i]);
            proof {
                assert(split_loop(rest, old_cur) == split_loop(rest.drop_first(), cur@));
            }
        }
        i += 1;
    }
    proof {
        assert(p@.subrange(p@.len() as int, p@.len() as int) =~= Seq::<char>::empty());
    }
    if cur.len() > 0 {
        let ghost old_r = r@;
        let ghost old_cur = cur@;
        r.push(cur);
        proof {
            assert(seq_views(r@) =~= seq_views(old_r).push(old_cur));
            assert(seq_views(old_r) + split_loop(Seq::empty(), old_cur) =~= seq_views(r@));
        }
    } else {
        proof {
            assert(seq_views(r@) + split_loop(Seq::empty(), cur@) =~= seq_views(r@));
        }
    }
    r
}

/// The final component of a path, if it has one.
pub open spec fn path_file_name(p: Seq<char>) -> Option<Seq<char>> {
    let segs = split_components(p);
    if segs.len() == 0 {
        None
    } else {
        Some(segs.last())
    }
}

/// Whether a path's final component starts with a dot.
pub open spec fn is_hidden(p: Seq<char>) -> bool {
    match path_file_name(p) {
        Some(name) => name.len() > 0 && name[0] == '.',
        None => false,
    }
}

/// The index of the last `.` in `s`, or `-1` if there is none.
pub open spec fn last_dot(s: Seq<char>) -> int
    decreases s.len(),
{
    if s.len() == 0 {
        -1
    } else if s.last() == '.' {
        s.len() - 1
    } else {
        last_dot(s.drop_last())
    }
}

/// The extension of a file name: what follows its last `.`, unless that dot
/// is absent or is the leading character.
pub open spec fn extension_of(name: Seq<char>) -> Option<Seq<char>> {
    let d = last_dot(name);
    if d > 0 {
        Some(name.subrange(d + 1, name.len() as int))
    } else {
        None
    }
}

/// The extension of a path's final component.
pub open spec fn path_extension(p: Seq<char>) -> Option<Seq<char>> {
    match path_file_name(p) {
        Some(name) => extension_of(name),
        None => None,
    }
}

/// Extracts the extension of a single path component.
pub fn extension_chars(name: &Vec<char>) -> (r: Option<Vec<char>>)
    ensures
        match r {
            Some(e) => extension_of(name@) == Some(e@),
            None => extension_of(name@) is None,
        },
{
    let mut j: usize = name.len();
    proof {
        assert(name@.subrange(0, name@.len() as int) =~= name@);
    }
    while j > 0
        invariant
            j <= name.len(),
            last_dot(name@) == last_dot(name@.subrange(0, j as int)),
        decreases j,
    {
        let ghost pre = name@.subrange(0, j as int);
        proof {
            assert(pre.last() == name@[j - 1]);
            assert(pre.drop_last() =~= name@.subrange(0, j - 1 as int));
        }
        if name[j - 1] == '.' {
            if j - 1 > 0 {
                let mut e: Vec<char> = Vec::new();
                let mut k: usize = j;
                while k < name.len()
                    invariant
                        j <= k <= name.len(),
                        e@ =~= name@.subrange(j as int, k as int),
                    decreases name.len() - k,
                {
                    e.push(name[k]);
                    k += 1;
                    proof {
                        assert(e@ =~= name@.subrange(j as int, k as int));
                    }
                }
                proof {
                    assert(e@ =~= name@.subrange(last_dot(name@) + 1, name@.len() as int));
                }
                return Some(e);
            } else {
                return None;
            }
        }
        j -= 1;
    }
    proof {
        assert(name@.subrange(0, 0) =~= Seq::<char>::empty());
    }
    None
}

/// Whether `a` is a prefix of `b`.
pub open spec fn is_seq_prefix<A>(a: Seq<A>, b: Seq<A>) -> bool {
    a.len() <= b.len() && a == b.subrange(0, a.len() as int)
}

/// The components of `p` after stripping those of `root`, or `None` when
/// `p` does not lie under `root`.
pub open spec fn rel_components(p: Seq<char>, root: Seq<char>) -> Option<Seq<Seq<char>>> {
    let ps = split_components(p);
    let rs = split_components(root);
    if is_seq_prefix(rs, ps) {
        Some(ps.skip(rs.len() as int))
    } else {
        None
    }
}

/// Separator-prefixed concatenation of components, the tail of a join.
pub open spec fn join_tail(segs: Seq<Seq<char>>, sep: char) -> Seq<char>
    decreases segs.len(),
{
    if segs.len() == 0 {
        Seq::empty()
    } else {
        seq![sep] + segs[0] + join_tail(segs.drop_first(), sep)
    }
}

/// Joins components with the separator between them.
pub open spec fn join_sep(segs: Seq<Seq<char>>, sep: char) -> Seq<char> {
    if segs.len() == 0 {
        Seq::empty()
    } else {
        segs[0] + join_tail(segs.drop_first(), sep)
    }
}

/// Joins components with `/` separators.
pub open spec fn join_components(segs: Seq<Seq<char>>) -> Seq<char> {
    join_sep(segs, '/')
}

/// Joins component vectors into one character vector.
pub fn join_chars(segs: &Vec<Vec<char>>) -> (r: Vec<char>)
    ensures
        r@ == join_components(seq_views(segs@)),
{
    join_chars_sep(segs, '/')
}

/// Joins component vectors with the separator between them.
pub fn join_chars_sep(segs: &Vec<Vec<char>>, sep: char) -> (r: Vec<char>)
    ensures
        r@ == join_sep(seq_views(segs@), sep),
{
    let ghost target = join_sep(seq_views(segs@), sep);
    let mut r: Vec<char> = Vec::new();
    if segs.len() == 0 {
        return r;
    }
    let mut i: usize = 0;
    while i < segs.len()
        invariant
            i <= segs.len(),
            segs@.len() > 0,
            target == join_sep(seq_views(segs@), sep),
            i == 0 ==> r@ =~= Seq::<char>::empty(),
            i > 0 ==> r@ + join_tail(seq_views(segs@).skip(i as int), sep) == target,
        decreases segs.len() - i,
    {
        let ghost before = r@;
        if i > 0 {
            r.push(sep);
        }
        let seg = &segs[i];
        let ghost mid = r@;
        let mut k: usize = 0;
        while k < seg.len()
            invariant
                k <= seg.len(),
                seg@ == segs@[i as int]@,
                r@ == mid + seg@.subrange(0, k as int),
            decreases seg.len() - k,
        {
            r.push(seg[k]);
            k += 1;
            proof {
                assert(r@ =~= mid + seg@.subrange(0, k as int));
            }
        }
        proof {
            assert(seg@.subrange(0, seg@.len() as int) =~= seg@);
            let rest = seq_views(segs@).skip(i as int);
            assert(rest[0] == segs@[i as int]@);
            assert(rest.drop_first() =~= seq_views(segs@).skip(i + 1 as int));
            if i == 0 {
                assert(r@ =~= before + seg@);
                assert(r@ + join_tail(seq_views(segs@).skip(1), sep) =~= target);
            } else {
                assert(r@ =~= before + seq![sep] + seg@);
                assert(join_tail(rest, sep) == seq![sep] + segs@[i as int]@ + join_tail(seq_views(segs@).skip(i + 1 as int), sep));
                assert(r@ + join_tail(seq_views(segs@).skip(i + 1 as int), sep) =~= before
                    + join_tail(rest, sep));
            }
        }
        i += 1;
    }
    proof {
        assert(seq_views(segs@).skip(segs@.len() as int) =~= Seq::<Seq<char>>::empty());
        assert(r@ =~= target);
    }
    r
}

/// Splitting a newline-free path yields newline-free components.
pub proof fn lemma_split_clean(p: Seq<char>, cur: Seq<char>)
    requires
        crate::text::no_newline(p),
        crate::text::no_newline(cur),
    ensures
        forall|j: int|
            0 <= j < split_loop(p, cur).len() ==> crate::text::no_newline(
                #[trigger] split_loop(p, cur)[j],
            ),
    decreases p.len(),
{
    if p.len() == 0 {
        if cur.len() > 0 {
            assert(split_loop(p, cur)[0] == cur);
        }
    } else {
        let rest = p.drop_first();
        assert(crate::text::no_newline(rest)) by {
            assert(forall|i: int| 0 <= i < rest.len() ==> #[trigger] rest[i] == p[i + 1]);
        }
        if p[0] == '/' {
            lemma_split_clean(rest, Seq::empty());
            let head = if cur.len() == 0 {
                Seq::<Seq<char>>::empty()
            } else {
                seq![cur]
            };
            let tail = split_loop(rest, Seq::empty());
            assert forall|j: int|
                0 <= j < (head + tail).len() implies crate::text::no_newline(
                #[trigger] (head + tail)[j],
            ) by {
                if j < head.len() {
                    assert((head + tail)[j] == cur);
                } else {
                    assert((head + tail)[j] == tail[j - head.len()]);
                }
            }
        } else {
            assert(crate::text::no_newline(cur.push(p[0]))) by {
                let c2 = cur.push(p[0]);
                assert(forall|i: int|
                    0 <= i < cur.len() ==> #[trigger] c2[i] == cur[i]);
                assert(c2[cur.len() as int] == p[0]);
            }
            lemma_split_clean(rest, cur.push(p[0]));
            assert(split_loop(p, cur) == split_loop(rest, cur.push(p[0])));
        }
    }
}

/// Joining newline-free components with a separator other than a newline
/// yields a newline-free string.
pub proof fn lemma_join_clean(segs: Seq<Seq<char>>, sep: char)
    requires
        sep != '\n',
        forall|j: int| 0 <= j < segs.len() ==> crate::text::no_newline(#[trigger] segs[j]),
    ensures
        crate::text::no_newline(join_sep(segs, sep)),
    decreases segs.len(),
{
    if segs.len() > 0 {
        let rest = segs.drop_first();
        assert(forall|j: int| 0 <= j < rest.len() ==> #[trigger] rest[j] == segs[j + 1]);
        lemma_join_tail_clean(rest, sep);
        let whole = join_sep(segs, sep);
        assert forall|i: int| 0 <= i < whole.len() implies #[trigger] whole[i] != '\n' by {
            if i < segs[0].len() {
                assert(whole[i] == segs[0][i]);
            } else {
                assert(whole[i] == join_tail(rest, sep)[i - segs[0].len()]);
            }
        }
    }
}

/// The tail of such a join is newline-free too.
proof fn lemma_join_tail_clean(segs: Seq<Seq<char>>, sep: char)
    requires
        sep != '\n',
        forall|j: int| 0 <= j < segs.len() ==> crate::text::no_newline(#[trigger] segs[j]),
    ensures
        crate::text::no_newline(join_tail(segs, sep)),
    decreases segs.len(),
{
    if segs.len() > 0 {
        let rest = segs.drop_first();
        assert(forall|j: int| 0 <= j < rest.len() ==> #[trigger] rest[j] == segs[j + 1]);
        lemma_join_tail_clean(rest, sep);
        let whole = join_tail(segs, sep);
        assert forall|i: int| 0 <= i < whole.len() implies #[trigger] whole[i] != '\n' by {
            if i == 0 {
                assert(whole[0] == sep);
            } else if i < 1 + segs[0].len() {
                assert(whole[i] == segs[0][i - 1]);
            } else {
                assert(whole[i] == join_tail(rest, sep)[i - 1 - segs[0].len()]);
            }
        }
    }
}

} // verus!
