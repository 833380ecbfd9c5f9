//! Conversions from borrowed string slices into the owned forms the
//! pipeline works on, and the string-set type used for the extension
//! allow-list and the ignored-directory names.

use vstd::prelude::*;

use crate::regexes::{regex_compiles, regex_new_ok};
use crate::text::{eq_chars, string_to_chars};

verus! {

/// The set of character sequences the given strings hold.
pub open spec fn set_of_views(v: Seq<String>) -> Set<Seq<char>> {
    Set::new(|x: Seq<char>| crate::text::views_contain(v, x))
}

/// A set of strings, held as a duplicate-free vector.
#[derive(Debug)]
pub struct StringSet {
    pub items: Vec<String>,
}

impl StringSet {
    /// Whether some member's characters are exactly `x`.
    pub open spec fn contains_view(&self, x: Seq<char>) -> bool {
        exists|i: int| 0 <= i < self.items@.len() && self.items@[i]@ == x
    }

    /// Whether the set has no members.
    pub open spec fn spec_is_empty(&self) -> bool {
        self.items@.len() == 0
    }

    /// The members, as a mathematical set of character sequences.
    pub open spec fn as_set(&self) -> Set<Seq<char>> {
        Set::new(|x: Seq<char>| self.contains_view(x))
    }

    /// The set of members is empty exactly when there are no members.
    pub proof fn lemma_as_set_empty(&self)
        ensures
            self.spec_is_empty() <==> self.as_set() == Set::<Seq<char>>::empty(),
    {
        if self.spec_is_empty() {
            assert(self.as_set() =~= Set::<Seq<char>>::empty());
        } else {
            assert(self.contains_view(self.items@[0]@));
            assert(self.as_set().contains(self.items@[0]@));
            assert(!Set::<Seq<char>>::empty().contains(self.items@[0]@));
        }
    }

    /// No two members hold the same characters.
    pub open spec fn wf(&self) -> bool {
        forall|i: int, j: int|
            0 <= i < j < self.items@.len() ==> self.items@[i]@ != self.items@[j]@
    }

    /// Builds the set of the given strings, dropping duplicates.
    pub fn from_strings(inp: &Vec<String>) -> (r: StringSet)
        ensures
            r.wf(),
            forall|x: Seq<char>|
                r.contains_view(x) <==> exists|i: int| 0 <= i < inp@.len() && inp@[i]@ == x,
            r.spec_is_empty() <==> inp@.len() == 0,
    {
        let mut r = StringSet { items: Vec::new() };
        let mut i: usize = 0;
        while i < inp.len()
            invariant
                i <= inp.len(),
                r.wf(),
                forall|x: Seq<char>|
                    r.contains_view(x) <==> exists|k: int| 0 <= k < i && inp@[k]@ == x,
                r.spec_is_empty() <==> i == 0,
            decreases inp.len() - i,
        {
            let ghost r0 = r;
            let ghost old_items = r.items@;
            let s = inp[i].clone();
            let present = r.contains_str(s.as_str());
            if !present {
                r.items.push(s);
            }
            proof {
                if !present {
                    assert(r.items@ =~= old_items.push(s));
                }
            }
            i += 1;
            proof {
                assert forall|x: Seq<char>| r.contains_view(x) implies exists|k: int|
                    0 <= k < i && inp@[k]@ == x by {
                    let w = choose|w: int|
                        0 <= w < r.items@.len() && r.items@[w]@ == x;
                    if w < old_items.len() {
                        assert(old_items[w]@ == x);
                        assert(r0.contains_view(x));
                        let k = choose|k: int| 0 <= k < i - 1 && inp@[k]@ == x;
                        assert(0 <= k < i && inp@[k]@ == x);
                    } else {
                        assert(inp@[i - 1]@ == x);
                    }
                }
                assert forall|x: Seq<char>| (exists|k: int| 0 <= k < i && inp@[k]@ == x)
                    implies r.contains_view(x) by {
                    let k = choose|k: int| 0 <= k < i && inp@[k]@ == x;
                    if k < i - 1 {
                        assert(r0.contains_view(x));
                        let w = choose|w: int| 0 <= w < old_items.len() && old_items[w]@ == x;
                        assert(r.items@[w]@ == x);
                    } else {
                        if present {
                            assert(r0.contains_view(x));
                            let w = choose|w: int|
                                0 <= w < old_items.len() && old_items[w]@ == x;
                            assert(r.items@[w]@ == x);
                        } else {
                            assert(r.items@[old_items.len() as int]@ == x);
                        }
                    }
                }
            }
        }
        r
    }

    /// Whether `x` names a member.
    pub fn contains_str(&self, x: &str) -> (r: bool)
        ensures
            r == self.contains_view(x@),
    {
        let xs = string_to_chars(x);
        self.contains_chars(&xs)
    }

    /// Whether the characters `x` name a member.
    pub fn contains_chars(&self, x: &Vec<char>) -> (r: bool)
        ensures
            r == self.contains_view(x@),
    {
        let mut i: usize = 0;
        while i < self.items.len()
            invariant
                i <= self.items@.len(),
                forall|k: int| 0 <= k < i ==> self.items@[k]@ != x@,
            decreases self.items@.len() - i,
        {
            let item = string_to_chars(self.items[i].as_str());
            if eq_chars(&item, x) {
                return true;
            }
            i += 1;
        }
        false
    }

    /// Whether the set has no members.
    pub fn is_empty(&self) -> (r: bool)
        ensures
            r == self.spec_is_empty(),
    {
        self.items.len() == 0
    }
}

/// Owns each borrowed path string; paths here are plain strings.
pub fn to_pathbufs(inp: Vec<&str>) -> (r: Vec<String>)
    ensures
        r@.len() == inp@.len(),
        forall|i: int| 0 <= i < inp@.len() ==> r@[i]@ == inp@[i]@,
{
    to_strings(inp)
}

/// Owns each borrowed string.
pub fn to_strings(inp: Vec<&str>) -> (r: Vec<String>)
    ensures
        r@.len() == inp@.len(),
        forall|i: int| 0 <= i < inp@.len() ==> r@[i]@ == inp@[i]@,
{
    let mut r: Vec<String> = Vec::new();
    let mut i: usize = 0;
    while i < inp.len()
        invariant
            i <= inp.len(),
            r@.len() == i,
            forall|k: int| 0 <= k < i ==> r@[k]@ == inp@[k]@,
        decreases inp.len() - i,
    {
        r.push(inp[i].to_owned());
        i += 1;
    }
    r
}

/// Builds the set of the given strings, dropping duplicates.
pub fn to_hashset(inp: Vec<&str>) -> (r: StringSet)
    ensures
        r.wf(),
        forall|x: Seq<char>|
            r.contains_view(x) <==> exists|i: int| 0 <= i < inp@.len() && inp@[i]@ == x,
        r.spec_is_empty() <==> inp@.len() == 0,
{
    let owned = to_strings(inp);
    StringSet::from_strings(&owned)
}

/// The subsequence of patterns that compile as regular expressions.
pub open spec fn filter_compiling(pats: Seq<Seq<char>>) -> Seq<Seq<char>>
    decreases pats.len(),
{
    if pats.len() == 0 {
        Seq::empty()
    } else {
        filter_compiling(pats.drop_last()) + if regex_compiles(pats.last()) {
            seq![pats.last()]
        } else {
            Seq::empty()
        }
    }
}

/// Keeps, in order, the pattern strings that compile as regular
/// expressions.
pub fn to_regex_vec(inp: Vec<&str>) -> (r: Vec<String>)
    ensures
        r@.map_values(|s: String| s@) == filter_compiling(inp@.map_values(|s: &str| s@)),
{
    let ghost all = inp@.map_values(|s: &str| s@);
    let mut r: Vec<String> = Vec::new();
    let mut i: usize = 0;
    proof {
        assert(all.subrange(0, 0) =~= Seq::<Seq<char>>::empty());
        assert(r@.map_values(|s: String| s@) =~= filter_compiling(all.subrange(0, 0)));
    }
    while i < inp.len()
        invariant
            i <= inp.len(),
            all == inp@.map_values(|s: &str| s@),
            r@.map_values(|s: String| s@) == filter_compiling(all.subrange(0, i as int)),
        decreases inp.len() - i,
    {
        let ghost before = r@.map_values(|s: String| s@);
        if regex_new_ok(inp[i]) {
            r.push(inp[i].to_owned());
            proof {
                assert(r@.map_values(|s: String| s@) =~= before.push(inp@[i as int]@));
            }
        }
        i += 1;
        proof {
            let pre = all.subrange(0, i as int);
            assert(pre.drop_last() =~= all.subrange(0, i - 1));
            assert(pre.last() == all[i - 1]);
            if regex_compiles(all[i - 1]) {
                assert(r@.map_values(|s: String| s@) =~= filter_compiling(pre.drop_last())
                    + seq![pre.last()]);
            }
            assert(r@.map_values(|s: String| s@) =~= filter_compiling(pre));
        }
    }
    proof {
        assert(all.subrange(0, all.len() as int) =~= all);
    }
    r
}

} // verus!
